//! The offers of other programs, and which of their media types is taken.

use std::collections::HashMap;
use vstd::prelude::*;
use vstd::string::*;
use crate::text::{begins_with, same_text, starts_with, views};

verus! {

broadcast use {vstd::string::group_string_axioms, vstd::std_specs::hash::group_hash_axioms};

// ---------------------------------------------------------------------------
// Media types
// ---------------------------------------------------------------------------

/// The media types that are taken, the best first.
pub open spec fn preferences() -> Seq<Seq<char>> {
    seq![
        "x-special/gnome-copied-files"@,
        "text/uri-list"@,
        "image/png"@,
        "image/jpeg"@,
        "image/jpg"@,
        "image/webp"@,
        "image/gif"@,
        "image/bmp"@,
        "image/x-bmp"@,
        "image/tiff"@,
        "image/svg+xml"@,
        "application/x-color"@,
        "text/plain;charset=utf-8"@,
        "text/plain"@,
        "UTF8_STRING"@,
    ]
}

/// The first of `wanted` that is offered.
pub open spec fn first_offered(wanted: Seq<Seq<char>>, offered: Seq<Seq<char>>) -> Option<
    Seq<char>,
>
    decreases wanted.len(),
{
    if wanted.len() == 0 {
        None
    } else if offered.contains(wanted[0]) {
        Some(wanted[0])
    } else {
        first_offered(wanted.drop_first(), offered)
    }
}

/// The first type that is offered and is text of some kind.
pub open spec fn first_text(offered: Seq<Seq<char>>) -> Option<Seq<char>>
    decreases offered.len(),
{
    if offered.len() == 0 {
        None
    } else if begins_with(offered[0], "text/"@) {
        Some(offered[0])
    } else {
        first_text(offered.drop_first())
    }
}

/// The media type that is taken of those that are offered.
pub open spec fn preferred(offered: Seq<Seq<char>>) -> Option<Seq<char>> {
    match first_offered(preferences(), offered) {
        Some(mime) => Some(mime),
        None => first_text(offered),
    }
}

pub open spec fn text_view(text: Option<&str>) -> Option<Seq<char>> {
    match text {
        Some(t) => Some(t@),
        None => None,
    }
}

fn preference(i: usize) -> (r: &'static str)
    requires
        i < 15,
    ensures
        r@ == preferences()[i as int],
{
    if i == 0 {
        "x-special/gnome-copied-files"
    } else if i == 1 {
        "text/uri-list"
    } else if i == 2 {
        "image/png"
    } else if i == 3 {
        "image/jpeg"
    } else if i == 4 {
        "image/jpg"
    } else if i == 5 {
        "image/webp"
    } else if i == 6 {
        "image/gif"
    } else if i == 7 {
        "image/bmp"
    } else if i == 8 {
        "image/x-bmp"
    } else if i == 9 {
        "image/tiff"
    } else if i == 10 {
        "image/svg+xml"
    } else if i == 11 {
        "application/x-color"
    } else if i == 12 {
        "text/plain;charset=utf-8"
    } else if i == 13 {
        "text/plain"
    } else {
        "UTF8_STRING"
    }
}

fn is_offered(mime_types: &Vec<String>, mime: &str) -> (r: bool)
    ensures
        r == views(mime_types@).contains(mime@),
{
    let mut i: usize = 0;
    while i < mime_types.len()
        invariant
            i <= mime_types.len(),
            forall|k: int| 0 <= k < i ==> #[trigger] views(mime_types@)[k] != mime@,
        decreases mime_types.len() - i,
    {
        if same_text(mime_types[i].as_str(), mime) {
            assert(views(mime_types@)[i as int] == mime@);
            return true;
        }
        i = i + 1;
    }
    false
}

/// The media type that is taken of those that are offered: the best one, or else the
/// first one that is text.
pub fn preferred_mime(mime_types: &Vec<String>) -> (r: Option<&str>)
    ensures
        text_view(r) == preferred(views(mime_types@)),
{
    let ghost offered = views(mime_types@);
    let mut i: usize = 0;
    assert(preferences().skip(0) =~= preferences());
    while i < 15
        invariant
            i <= 15,
            offered == views(mime_types@),
            first_offered(preferences().skip(i as int), offered) == first_offered(
                preferences(),
                offered,
            ),
        decreases 15 - i,
    {
        let wanted = preference(i);
        assert(preferences().skip(i as int)[0] == preferences()[i as int]);
        assert(preferences().skip(i as int).drop_first() =~= preferences().skip(i + 1));
        if is_offered(mime_types, wanted) {
            return Some(wanted);
        }
        i = i + 1;
    }
    let mut j: usize = 0;
    assert(offered.skip(0) =~= offered);
    while j < mime_types.len()
        invariant
            j <= mime_types.len(),
            offered == views(mime_types@),
            first_offered(preferences(), offered) is None,
            first_text(offered.skip(j as int)) == first_text(offered),
        decreases mime_types.len() - j,
    {
        assert(offered.skip(j as int)[0] == offered[j as int]);
        assert(offered.skip(j as int).drop_first() =~= offered.skip(j + 1));
        if starts_with(mime_types[j].as_str(), "text/") {
            return Some(mime_types[j].as_str());
        }
        j = j + 1;
    }
    None
}

// ---------------------------------------------------------------------------
// Offers
// ---------------------------------------------------------------------------

/// The offers that are known, by number, and the one that is to be taken.
pub struct OfferState {
    offers: HashMap<u64, Vec<String>>,
    selection: Option<u64>,
}

/// The model of an `OfferState`.
pub ghost struct OffersModel {
    pub offers: Map<u64, Seq<Seq<char>>>,
    pub selection: Option<u64>,
}

impl View for OfferState {
    type V = OffersModel;

    closed spec fn view(&self) -> OffersModel {
        OffersModel {
            offers: self.offers@.map_values(|types: Vec<String>| views(types@)),
            selection: self.selection,
        }
    }
}

/// What the data-control device announces.
#[derive(Clone, Copy, Debug, PartialEq, Eq, Structural)]
pub enum DeviceEvent {
    DataOffer(u64),
    Selection(Option<u64>),
    PrimarySelection(Option<u64>),
    Other,
}

/// What is to be done about the selection.
pub enum OfferStep {
    /// There is nothing to take.
    Wait,
    /// The offer has no type that is taken: destroy it.
    Discard(u64),
    /// Receive the offer's data as `mime`, and destroy the offer.
    Receive { offer: u64, mime: String, mime_types: Vec<String> },
}

/// The offers after an event.
pub open spec fn offers_after(state: OffersModel, event: DeviceEvent) -> OffersModel {
    match event {
        DeviceEvent::DataOffer(id) => OffersModel {
            offers: state.offers.insert(id, seq![]),
            ..state
        },
        DeviceEvent::Selection(id) => OffersModel {
            offers: match state.selection {
                Some(previous) => state.offers.remove(previous),
                None => state.offers,
            },
            selection: id,
        },
        DeviceEvent::PrimarySelection(Some(id)) => OffersModel {
            offers: state.offers.remove(id),
            ..state
        },
        _ => state,
    }
}

/// The offer that an event makes worthless.
pub open spec fn dropped_offer(state: OffersModel, event: DeviceEvent) -> Option<u64> {
    match event {
        DeviceEvent::Selection(_) => state.selection,
        DeviceEvent::PrimarySelection(id) => id,
        _ => None,
    }
}

/// The offers after a media type was announced for one of them.
pub open spec fn offers_with_type(state: OffersModel, offer: u64, mime: Seq<char>) -> OffersModel {
    if state.offers.contains_key(offer) {
        OffersModel {
            offers: state.offers.insert(offer, state.offers[offer].push(mime)),
            ..state
        }
    } else {
        state
    }
}

/// The offers once the selection was taken.
pub open spec fn offers_taken(state: OffersModel) -> OffersModel {
    match state.selection {
        Some(id) => OffersModel { offers: state.offers.remove(id), selection: None },
        None => state,
    }
}

/// Whether `step` is what is to be done about the selection.
pub open spec fn is_next_step(state: OffersModel, step: OfferStep) -> bool {
    match state.selection {
        None => step is Wait,
        Some(id) => if !state.offers.contains_key(id) {
            step is Wait
        } else {
            match preferred(state.offers[id]) {
                None => step == OfferStep::Discard(id),
                Some(wanted) => step matches OfferStep::Receive { offer, mime, mime_types }
                    && offer == id && mime@ == wanted && views(mime_types@) == state.offers[id],
            }
        },
    }
}

impl OfferState {
    /// No offers.
    pub fn new() -> (r: OfferState)
        ensures
            r@ == (OffersModel { offers: Map::empty(), selection: None }),
    {
        let r = OfferState { offers: HashMap::new(), selection: None };
        assert(r@.offers =~= Map::empty());
        r
    }

    /// Takes note of an event, and gives the offer that is to be destroyed.
    pub fn device_event(&mut self, event: DeviceEvent) -> (r: Option<u64>)
        ensures
            final(self)@ == offers_after(old(self)@, event),
            r == dropped_offer(old(self)@, event),
    {
        let ghost before = self@;
        match event {
            DeviceEvent::DataOffer(id) => {
                let types: Vec<String> = Vec::new();
                assert(views(types@) =~= seq![]);
                self.offers.insert(id, types);
                assert(self@.offers =~= before.offers.insert(id, seq![]));
                None
            },
            DeviceEvent::Selection(id) => {
                let previous = self.selection;
                if let Some(offer) = previous {
                    self.offers.remove(&offer);
                    assert(self@.offers =~= before.offers.remove(offer));
                }
                self.selection = id;
                previous
            },
            DeviceEvent::PrimarySelection(Some(id)) => {
                self.offers.remove(&id);
                assert(self@.offers =~= before.offers.remove(id));
                Some(id)
            },
            _ => None,
        }
    }

    /// Takes note of a media type of an offer.
    pub fn offer_event(&mut self, offer: u64, mime_type: String)
        ensures
            final(self)@ == offers_with_type(old(self)@, offer, mime_type@),
    {
        let ghost before = self@;
        if let Some(found) = self.offers.remove(&offer) {
            let mut types = found;
            let ghost known = types@;
            types.push(mime_type);
            assert(views(types@) =~= views(known).push(mime_type@));
            self.offers.insert(offer, types);
            assert(self@.offers =~= before.offers.insert(offer, views(known).push(mime_type@)));
        } else {
            assert(self@.offers =~= before.offers);
        }
    }

    /// Takes the selection, and says what is to be done about it.
    pub fn next_step(&mut self) -> (r: OfferStep)
        ensures
            final(self)@ == offers_taken(old(self)@),
            is_next_step(old(self)@, r),
    {
        let ghost before = self@;
        let offer = match self.selection {
            Some(offer) => offer,
            None => {
                return OfferStep::Wait;
            },
        };
        self.selection = None;
        let mime_types = match self.offers.remove(&offer) {
            Some(mime_types) => mime_types,
            None => {
                assert(self@.offers =~= before.offers.remove(offer));
                return OfferStep::Wait;
            },
        };
        assert(self@.offers =~= before.offers.remove(offer));
        assert(before.offers[offer] == views(mime_types@));
        let mime = match preferred_mime(&mime_types) {
            Some(mime) => mime.to_owned(),
            None => {
                return OfferStep::Discard(offer);
            },
        };
        OfferStep::Receive { offer, mime, mime_types }
    }
}

// ---------------------------------------------------------------------------
// Laws
// ---------------------------------------------------------------------------

proof fn lemma_first_offered(wanted: Seq<Seq<char>>, offered: Seq<Seq<char>>)
    ensures
        match first_offered(wanted, offered) {
            Some(mime) => offered.contains(mime) && exists|i: int|
                0 <= i < wanted.len() && wanted[i] == mime && forall|k: int|
                    0 <= k < i ==> !offered.contains(#[trigger] wanted[k]),
            None => forall|k: int|
                0 <= k < wanted.len() ==> !offered.contains(#[trigger] wanted[k]),
        },
    decreases wanted.len(),
{
    if wanted.len() > 0 && !offered.contains(wanted[0]) {
        let rest = wanted.drop_first();
        lemma_first_offered(rest, offered);
        assert(forall|k: int| 0 < k < wanted.len() ==> #[trigger] wanted[k] == rest[k - 1]);
        match first_offered(wanted, offered) {
            Some(mime) => {
                let i = choose|i: int|
                    0 <= i < rest.len() && rest[i] == mime && forall|k: int|
                        0 <= k < i ==> !offered.contains(#[trigger] rest[k]);
                assert(wanted[i + 1] == mime);
                assert forall|k: int| 0 <= k < i + 1 implies !offered.contains(
                    #[trigger] wanted[k],
                ) by {
                    if k > 0 {
                        assert(wanted[k] == rest[k - 1]);
                    }
                }
            },
            None => {},
        }
    } else if wanted.len() > 0 {
        assert(wanted[0] == first_offered(wanted, offered)->0);
    }
}

proof fn lemma_first_text(offered: Seq<Seq<char>>)
    ensures
        match first_text(offered) {
            Some(mime) => offered.contains(mime) && begins_with(mime, "text/"@),
            None => forall|k: int|
                0 <= k < offered.len() ==> !begins_with(#[trigger] offered[k], "text/"@),
        },
    decreases offered.len(),
{
    if offered.len() > 0 {
        let rest = offered.drop_first();
        lemma_first_text(rest);
        if begins_with(offered[0], "text/"@) {
            assert(offered.contains(offered[0]));
        } else {
            assert(forall|k: int| 0 < k < offered.len() ==> #[trigger] offered[k] == rest[k - 1]);
            if let Some(mime) = first_text(rest) {
                let k = choose|k: int| 0 <= k < rest.len() && rest[k] == mime;
                assert(offered[k + 1] == mime);
            }
        }
    }
}

/// The type that is taken is one that is offered, no better one is offered, and a
/// type is taken whenever a preferred one or some kind of text is offered.
pub proof fn preferred_is_offered(offered: Seq<Seq<char>>, i: int)
    requires
        0 <= i < preferences().len(),
    ensures
        preferred(offered) matches Some(mime) ==> offered.contains(mime),
        offered.contains(preferences()[i]) ==> exists|j: int|
            0 <= j <= i && preferred(offered) == Some(#[trigger] preferences()[j]),
        preferred(offered) is None ==> forall|k: int|
            0 <= k < offered.len() ==> !begins_with(#[trigger] offered[k], "text/"@),
{
    lemma_first_offered(preferences(), offered);
    lemma_first_text(offered);
    if offered.contains(preferences()[i]) {
        let mime = first_offered(preferences(), offered)->0;
        let j = choose|j: int|
            0 <= j < preferences().len() && preferences()[j] == mime && forall|k: int|
                0 <= k < j ==> !offered.contains(#[trigger] preferences()[k]);
        assert(j <= i);
    }
}

/// Once the selection was taken, nothing is left to take until the next selection.
pub proof fn selection_is_taken_once(state: OffersModel, step: OfferStep)
    requires
        is_next_step(offers_taken(state), step),
    ensures
        step is Wait,
        offers_taken(offers_taken(state)) == offers_taken(state),
{
}

/// A new selection drops the offer of the previous one, and only that.
pub proof fn selection_replaces_the_previous_one(state: OffersModel, id: Option<u64>, other: u64)
    ensures
        dropped_offer(state, DeviceEvent::Selection(id)) == state.selection,
        offers_after(state, DeviceEvent::Selection(id)).selection == id,
        state.selection != Some(other) ==> (state.offers.contains_key(other) == offers_after(
            state,
            DeviceEvent::Selection(id),
        ).offers.contains_key(other)),
        state.selection == Some(other) ==> !offers_after(
            state,
            DeviceEvent::Selection(id),
        ).offers.contains_key(other),
{
}

/// Of two media types that are offered, the one that comes first here is taken: files
/// before images, images before colors, and colors before text.
pub proof fn better_types_are_taken(offered: Seq<Seq<char>>, i: int, j: int)
    requires
        0 <= i < j < 15,
    ensures
        ({
            let ranking = seq![
                "x-special/gnome-copied-files"@,
                "text/uri-list"@,
                "image/png"@,
                "image/jpeg"@,
                "image/jpg"@,
                "image/webp"@,
                "image/gif"@,
                "image/bmp"@,
                "image/x-bmp"@,
                "image/tiff"@,
                "image/svg+xml"@,
                "application/x-color"@,
                "text/plain;charset=utf-8"@,
                "text/plain"@,
                "UTF8_STRING"@,
            ];
            offered.contains(ranking[i]) ==> preferred(offered) is Some && preferred(offered)
                != Some(ranking[j]) && exists|k: int|
                0 <= k <= i && preferred(offered) == Some(#[trigger] ranking[k])
        }),
{
    let ranking = preferences();
    if offered.contains(ranking[i]) {
        preferred_is_offered(offered, i);
        let k = choose|k: int|
            0 <= k <= i && preferred(offered) == Some(#[trigger] preferences()[k]);
        lemma_ranking_distinct(k, j);
        assert(preferred(offered) == Some(ranking[k]));
    }
}

proof fn lemma_ranking_distinct(i: int, j: int)
    requires
        0 <= i < j < 15,
    ensures
        preferences()[i] != preferences()[j],
{
    reveal_strlit("x-special/gnome-copied-files");
    reveal_strlit("text/uri-list");
    reveal_strlit("image/png");
    reveal_strlit("image/jpeg");
    reveal_strlit("image/jpg");
    reveal_strlit("image/webp");
    reveal_strlit("image/gif");
    reveal_strlit("image/bmp");
    reveal_strlit("image/x-bmp");
    reveal_strlit("image/tiff");
    reveal_strlit("image/svg+xml");
    reveal_strlit("application/x-color");
    reveal_strlit("text/plain;charset=utf-8");
    reveal_strlit("text/plain");
    reveal_strlit("UTF8_STRING");
    let a = preferences()[i];
    let b = preferences()[j];
    assert(a.len() != b.len() || a[0] != b[0] || a[6] != b[6]);
}

/// Where none of the known media types is offered, the first that is text is taken, and
/// none where there is none.
pub proof fn other_text_is_taken_in_order(offered: Seq<Seq<char>>, i: int)
    requires
        0 <= i <= offered.len(),
        forall|k: int| 0 <= k < 15 ==> !offered.contains(#[trigger] preferences()[k]),
        forall|k: int|
            0 <= k < i ==> (#[trigger] offered[k]).len() < 5 || offered[k].take(5) != seq![
                't',
                'e',
                'x',
                't',
                '/',
            ],
        i < offered.len() ==> offered[i].len() >= 5 && offered[i].take(5) == seq![
            't',
            'e',
            'x',
            't',
            '/',
        ],
    ensures
        i < offered.len() ==> preferred(offered) == Some(offered[i]),
        i == offered.len() ==> preferred(offered) is None,
{
    reveal_strlit("text/");
    assert("text/"@ =~= seq!['t', 'e', 'x', 't', '/']);
    lemma_first_offered(preferences(), offered);
    lemma_first_text_at(offered, i);
}

proof fn lemma_first_text_at(offered: Seq<Seq<char>>, i: int)
    requires
        0 <= i <= offered.len(),
        forall|k: int| 0 <= k < i ==> !begins_with(#[trigger] offered[k], "text/"@),
        i < offered.len() ==> begins_with(offered[i], "text/"@),
    ensures
        i < offered.len() ==> first_text(offered) == Some(offered[i]),
        i == offered.len() ==> first_text(offered) is None,
    decreases offered.len(),
{
    if offered.len() > 0 && i > 0 {
        let rest = offered.drop_first();
        assert(!begins_with(offered[0], "text/"@));
        assert forall|k: int| 0 <= k < i - 1 implies !begins_with(
            #[trigger] rest[k],
            "text/"@,
        ) by {
            assert(rest[k] == offered[k + 1]);
        }
        lemma_first_text_at(rest, i - 1);
    }
}

/// The offers after media types were announced for one of them, in order.
pub open spec fn offers_with_types(state: OffersModel, offer: u64, types: Seq<Seq<char>>) -> OffersModel
    decreases types.len(),
{
    if types.len() == 0 {
        state
    } else {
        offers_with_type(offers_with_types(state, offer, types.drop_last()), offer, types.last())
    }
}

/// When an offer is announced, then its media types, and then that it is the selection, it
/// is received with exactly those types, in their order, or discarded if none of them is
/// taken. Offers that are announced in between do not matter.
pub proof fn selections_are_received_with_their_types(
    state: OffersModel,
    offer: u64,
    other: u64,
    types: Seq<Seq<char>>,
    step: OfferStep,
)
    requires
        other != offer,
        state.selection != Some(offer),
        ({
            let announced = offers_after(state, DeviceEvent::DataOffer(offer));
            let known = offers_with_types(announced, offer, types);
            let busy = offers_after(known, DeviceEvent::DataOffer(other));
            let selected = offers_after(busy, DeviceEvent::Selection(Some(offer)));
            is_next_step(selected, step)
        }),
    ensures
        match preferred(types) {
            Some(wanted) => step matches OfferStep::Receive { offer: id, mime, mime_types } && id
                == offer && mime@ == wanted && views(mime_types@) == types,
            None => step == OfferStep::Discard(offer),
        },
{
    let announced = offers_after(state, DeviceEvent::DataOffer(offer));
    lemma_announced_types(announced, offer, types);
    assert(seq![] + types =~= types);
}

proof fn lemma_announced_types(state: OffersModel, offer: u64, types: Seq<Seq<char>>)
    requires
        state.offers.contains_key(offer),
    ensures
        offers_with_types(state, offer, types).offers.contains_key(offer),
        offers_with_types(state, offer, types).offers[offer] == state.offers[offer] + types,
        offers_with_types(state, offer, types).selection == state.selection,
    decreases types.len(),
{
    if types.len() == 0 {
        assert(state.offers[offer] + types =~= state.offers[offer]);
    } else {
        lemma_announced_types(state, offer, types.drop_last());
        assert((state.offers[offer] + types.drop_last()).push(types.last()) =~= state.offers[offer]
            + types);
    }
}

/// Media types go to the offer that they are announced for, and to no other; an offer of
/// the primary selection is dropped and changes nothing else; the selection that is taken
/// is forgotten, and only that.
pub proof fn offers_do_not_mix(state: OffersModel, offer: u64, other: u64, mime: Seq<char>)
    requires
        offer != other,
    ensures
        ({
            let typed = offers_with_type(state, offer, mime);
            let primary = offers_after(state, DeviceEvent::PrimarySelection(Some(offer)));
            let taken = offers_taken(state);
            &&& typed.offers.contains_key(other) == state.offers.contains_key(other)
            &&& typed.offers.contains_key(offer) == state.offers.contains_key(offer)
            &&& typed.offers.contains_key(other) ==> typed.offers[other] == state.offers[other]
            &&& typed.selection == state.selection
            &&& !primary.offers.contains_key(offer)
            &&& primary.offers.contains_key(other) == state.offers.contains_key(other)
            &&& primary.offers.contains_key(other) ==> primary.offers[other] == state.offers[other]
            &&& primary.selection == state.selection
            &&& dropped_offer(state, DeviceEvent::PrimarySelection(Some(offer))) == Some(offer)
            &&& dropped_offer(state, DeviceEvent::DataOffer(offer)) is None
            &&& dropped_offer(state, DeviceEvent::PrimarySelection(None)) is None
            &&& offers_after(state, DeviceEvent::PrimarySelection(None)) == state
            &&& offers_after(state, DeviceEvent::Other) == state
            &&& taken.selection is None
            &&& state.selection == Some(offer) ==> !taken.offers.contains_key(offer)
            &&& state.selection is None ==> taken == state
            &&& state.selection != Some(other) ==> taken.offers.contains_key(other)
                == state.offers.contains_key(other) && (taken.offers.contains_key(other)
                ==> taken.offers[other] == state.offers[other])
        }),
{
}

} // verus!
