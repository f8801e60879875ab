//! Which controller and which of its modes to use.
use crate::openrgb::{Controller, ControllerModel, Mode, ModeModel, Zone, ZoneModel};
use crate::search::{
    best_where, best_where_is_best, count_where, counted_items_are_those_that_fit, first_where,
    first_where_is_first,
};
use crate::text::{
    contains, lowered, number_in, occurs_in, parse_number, same, stands_at, to_chars, to_lower,
};
use vstd::prelude::*;

verus! {

/// `t` occurs in `s`, whose ASCII letters count as lower case.
pub open spec fn mentions(s: Seq<char>, t: Seq<char>) -> bool {
    occurs_in(t, lowered(s))
}

/// Whether `t` occurs in `s`, whose ASCII letters count as lower case.
pub fn mentioned(s: &str, t: &[char]) -> (r: bool)
    ensures
        r == mentions(s@, t@),
{
    let chars = to_chars(s);
    let low = to_lower(chars.as_slice());
    contains(low.as_slice(), t)
}

/// The zone drives an addressable header, by its name.
pub open spec fn is_addressable() -> spec_fn(ZoneModel) -> bool {
    |zone: ZoneModel| mentions(zone.name, "addressable"@)
}

/// Whether the zone drives an addressable header, by its name.
pub fn addressable(zone: &Zone) -> (r: bool)
    ensures
        r == is_addressable()(zone@),
{
    mentioned(zone.name.as_str(), to_chars("addressable").as_slice())
}

/// The contents of several controllers.
pub open spec fn controller_models(controllers: Seq<Controller>) -> Seq<ControllerModel> {
    Seq::new(controllers.len(), |i: int| controllers[i]@)
}

// ---------------------------------------------------------------------------
// Controllers
// ---------------------------------------------------------------------------
/// The controller has the given number.
pub open spec fn has_id(id: nat) -> spec_fn(ControllerModel) -> bool {
    |c: ControllerModel| c.id == id
}

/// The name, vendor, description or location of the controller mentions `t`.
pub open spec fn is_called(t: Seq<char>) -> spec_fn(ControllerModel) -> bool {
    |c: ControllerModel|
        mentions(c.name, t) || mentions(c.vendor, t) || mentions(c.description, t) || mentions(
            c.location,
            t,
        )
}

/// How many addressable zones the controller has.
pub open spec fn addressable_zones(c: ControllerModel) -> nat {
    count_where(c.zones, is_addressable())
}

/// Any controller will do.
pub open spec fn any_controller() -> spec_fn(ControllerModel) -> bool {
    |c: ControllerModel| true
}

/// `a` has more addressable zones than `b`, or as many and no fewer LEDs.
pub open spec fn as_promising() -> spec_fn(ControllerModel, ControllerModel) -> bool {
    |a: ControllerModel, b: ControllerModel|
        addressable_zones(a) > addressable_zones(b) || (addressable_zones(a) == addressable_zones(b)
            && a.led_count >= b.led_count)
}

/// The controller of the number that the selector is.
pub open spec fn selected_by_id(controllers: Seq<ControllerModel>, selector: Seq<char>) -> Option<
    int,
> {
    match number_in(selector, u32::MAX as nat) {
        Some(id) => first_where(controllers, has_id(id)),
        None => None,
    }
}

/// The controller that the selector names, by its number or else by a part of a name.
pub open spec fn named_controller(controllers: Seq<ControllerModel>, selector: Seq<char>) -> Option<
    int,
> {
    match selected_by_id(controllers, selector) {
        Some(i) => Some(i),
        None => first_where(controllers, is_called(lowered(selector))),
    }
}

/// The most promising controller.
pub open spec fn best_controller(controllers: Seq<ControllerModel>) -> Option<int> {
    best_where(controllers, any_controller(), as_promising())
}

/// The controller to use: the one that the selector names, or else the most promising.
pub open spec fn selected_controller(
    controllers: Seq<ControllerModel>,
    selector: Option<Seq<char>>,
) -> Option<int> {
    match selector {
        Some(selector) => match named_controller(controllers, selector) {
            Some(i) => Some(i),
            None => best_controller(controllers),
        },
        None => best_controller(controllers),
    }
}

fn count_addressable(controller: &Controller) -> (n: usize)
    ensures
        n == addressable_zones(controller@),
{
    let ghost zones = controller@.zones;
    let mut n: usize = 0;
    let mut i: usize = 0;
    assert(zones.take(0) =~= Seq::<ZoneModel>::empty());
    while i < controller.zones.len()
        invariant
            zones == controller@.zones,
            zones.len() == controller.zones@.len(),
            n <= i <= controller.zones.len(),
            n == count_where(zones.take(i as int), is_addressable()),
        decreases controller.zones.len() - i,
    {
        assert(zones.take(i + 1).drop_last() =~= zones.take(i as int));
        if addressable(&controller.zones[i]) {
            n += 1;
        }
        i += 1;
    }
    assert(zones.take(i as int) =~= zones);
    n
}

/// The position of the controller with the given number.
fn position_by_id(controllers: &Vec<Controller>, id: u32) -> (r: Option<usize>)
    ensures
        match r {
            Some(i) => first_where(controller_models(controllers@), has_id(id as nat)) == Some(
                i as int,
            ) && i < controllers@.len(),
            None => first_where(controller_models(controllers@), has_id(id as nat)) is None,
        },
{
    let ghost models = controller_models(controllers@);
    let mut found: Option<usize> = None;
    let mut i: usize = 0;
    assert(models.take(0) =~= Seq::<ControllerModel>::empty());
    while i < controllers.len()
        invariant
            models == controller_models(controllers@),
            i <= controllers.len(),
            match found {
                Some(k) => first_where(models.take(i as int), has_id(id as nat)) == Some(k as int)
                    && k < i,
                None => first_where(models.take(i as int), has_id(id as nat)) is None,
            },
        decreases controllers.len() - i,
    {
        assert(models.take(i + 1).drop_last() =~= models.take(i as int));
        if found.is_none() && controllers[i].id == id {
            found = Some(i);
        }
        i += 1;
    }
    assert(models.take(i as int) =~= models);
    found
}

/// The position of the first controller whose names mention `t`.
fn position_by_name(controllers: &Vec<Controller>, t: &[char]) -> (r: Option<usize>)
    ensures
        match r {
            Some(i) => first_where(controller_models(controllers@), is_called(t@)) == Some(i as int)
                && i < controllers@.len(),
            None => first_where(controller_models(controllers@), is_called(t@)) is None,
        },
{
    let ghost models = controller_models(controllers@);
    let mut found: Option<usize> = None;
    let mut i: usize = 0;
    assert(models.take(0) =~= Seq::<ControllerModel>::empty());
    while i < controllers.len()
        invariant
            models == controller_models(controllers@),
            i <= controllers.len(),
            match found {
                Some(k) => first_where(models.take(i as int), is_called(t@)) == Some(k as int) && k
                    < i,
                None => first_where(models.take(i as int), is_called(t@)) is None,
            },
        decreases controllers.len() - i,
    {
        assert(models.take(i + 1).drop_last() =~= models.take(i as int));
        if found.is_none() {
            let c = &controllers[i];
            if mentioned(c.name.as_str(), t) || mentioned(c.vendor.as_str(), t) || mentioned(
                c.description.as_str(),
                t,
            ) || mentioned(c.location.as_str(), t) {
                found = Some(i);
            }
        }
        i += 1;
    }
    assert(models.take(i as int) =~= models);
    found
}

/// The position of the most promising controller.
fn position_of_best(controllers: &Vec<Controller>) -> (r: Option<usize>)
    ensures
        match r {
            Some(i) => best_controller(controller_models(controllers@)) == Some(i as int) && i
                < controllers@.len(),
            None => best_controller(controller_models(controllers@)) is None,
        },
{
    let ghost models = controller_models(controllers@);
    let mut best: Option<(usize, usize)> = None;
    let mut i: usize = 0;
    assert(models.take(0) =~= Seq::<ControllerModel>::empty());
    while i < controllers.len()
        invariant
            models == controller_models(controllers@),
            i <= controllers.len(),
            match best {
                Some((k, zones)) => best_controller(models.take(i as int)) == Some(k as int) && k
                    < i && zones == addressable_zones(models[k as int]),
                None => best_controller(models.take(i as int)) is None,
            },
        decreases controllers.len() - i,
    {
        assert(models.take(i + 1).drop_last() =~= models.take(i as int));
        let zones: usize = count_addressable(&controllers[i]);
        let better = match best {
            Some((k, best_zones)) => zones > best_zones || (zones == best_zones
                && controllers[i].led_count >= controllers[k].led_count),
            None => true,
        };
        if better {
            best = Some((i, zones));
        }
        i += 1;
    }
    assert(models.take(i as int) =~= models);
    match best {
        Some((k, _)) => Some(k),
        None => None,
    }
}

/// The position of the controller that the selector names.
fn position_of_named(controllers: &Vec<Controller>, selector: &str) -> (r: Option<usize>)
    ensures
        match r {
            Some(i) => named_controller(controller_models(controllers@), selector@) == Some(
                i as int,
            ) && i < controllers@.len(),
            None => named_controller(controller_models(controllers@), selector@) is None,
        },
{
    let chars = to_chars(selector);
    if let Some(id) = parse_number(chars.as_slice(), u32::MAX as u64) {
        if let Some(i) = position_by_id(controllers, id as u32) {
            return Some(i);
        }
    }
    let low = to_lower(chars.as_slice());
    position_by_name(controllers, low.as_slice())
}

/// Whether the selector names one of the controllers.
pub fn names_a_controller(controllers: &Vec<Controller>, selector: &str) -> (r: bool)
    ensures
        r == named_controller(controller_models(controllers@), selector@) is Some,
{
    position_of_named(controllers, selector).is_some()
}

/// The controller to use.
pub fn select_controller(controllers: Vec<Controller>, selector: Option<&str>) -> (r: Option<
    Controller,
>)
    ensures
        ({
            let text = match selector {
                Some(s) => Some(s@),
                None => None,
            };
            match selected_controller(controller_models(controllers@), text) {
                Some(i) => 0 <= i < controllers@.len() && r == Some(controllers@[i]),
                None => r is None,
            }
        }),
{
    let mut controllers = controllers;
    let named: Option<usize> = match selector {
        Some(selector) => position_of_named(&controllers, selector),
        None => None,
    };
    let position: Option<usize> = match named {
        Some(i) => Some(i),
        None => position_of_best(&controllers),
    };
    match position {
        Some(i) => Some(controllers.remove(i)),
        None => None,
    }
}

/// There is a controller to use exactly where there is a controller.
pub proof fn some_controller_is_selected(
    controllers: Seq<ControllerModel>,
    selector: Option<Seq<char>>,
)
    ensures
        match selected_controller(controllers, selector) {
            Some(i) => 0 <= i < controllers.len(),
            None => controllers.len() == 0,
        },
{
    best_controller_is_most_promising(controllers);
    if let Some(selector) = selector {
        if let Some(id) = number_in(selector, u32::MAX as nat) {
            first_where_is_first(controllers, has_id(id));
        }
        first_where_is_first(controllers, is_called(lowered(selector)));
    }
}

/// No controller has more addressable zones than the most promising one, none with as many
/// has more LEDs, and of those with as many of both it is the last.
pub proof fn best_controller_is_most_promising(controllers: Seq<ControllerModel>)
    ensures
        match best_controller(controllers) {
            Some(i) => {
                &&& 0 <= i < controllers.len()
                &&& forall|j: int|
                    0 <= j < controllers.len() ==> {
                        let best = controllers[i];
                        let other = #[trigger] controllers[j];
                        ||| addressable_zones(best) > addressable_zones(other)
                        ||| addressable_zones(best) == addressable_zones(other) && if j <= i {
                            best.led_count >= other.led_count
                        } else {
                            best.led_count > other.led_count
                        }
                    }
            },
            None => controllers.len() == 0,
        },
{
    best_where_is_best(controllers, any_controller(), as_promising());
    assert forall|j: int| 0 <= j < controllers.len() implies any_controller()(
        #[trigger] controllers[j],
    ) by {}
    if controllers.len() > 0 {
        assert(any_controller()(controllers[0]));
    }
}

/// A selector that is the number of a controller selects a controller of that number, whatever
/// the names of the others.
pub proof fn a_number_selects_by_id(
    controllers: Seq<ControllerModel>,
    selector: Seq<char>,
    id: nat,
    k: int,
)
    requires
        number_in(selector, u32::MAX as nat) == Some(id),
        0 <= k < controllers.len(),
        controllers[k].id == id,
    ensures
        selected_controller(controllers, Some(selector)) matches Some(i) && 0 <= i <= k
            && controllers[i].id == id,
{
    first_where_is_first(controllers, has_id(id));
    assert(has_id(id)(controllers[k]));
}

// ---------------------------------------------------------------------------
// Modes
// ---------------------------------------------------------------------------
/// The mode is called "direct".
pub open spec fn is_direct() -> spec_fn(ModeModel) -> bool {
    |mode: ModeModel| lowered(mode.name) == "direct"@
}

/// The name of the mode mentions "direct".
pub open spec fn mentions_direct() -> spec_fn(ModeModel) -> bool {
    |mode: ModeModel| mentions(mode.name, "direct"@)
}

/// The mode in which LEDs are set one by one: the first that is called "direct", or else
/// the first whose name mentions it.
pub open spec fn direct_mode_of(modes: Seq<ModeModel>) -> Option<int> {
    match first_where(modes, is_direct()) {
        Some(i) => Some(i),
        None => first_where(modes, mentions_direct()),
    }
}

impl Controller {
    /// The mode in which LEDs are set one by one.
    pub fn direct_mode(&self) -> (r: Option<&Mode>)
        ensures
            match direct_mode_of(self@.modes) {
                Some(i) => 0 <= i < self.modes@.len() && r == Some(&self.modes@[i]),
                None => r is None,
            },
    {
        let direct = to_chars("direct");
        let ghost modes = self@.modes;
        let mut exact: Option<usize> = None;
        let mut partial: Option<usize> = None;
        let mut i: usize = 0;
        assert(modes.take(0) =~= Seq::<ModeModel>::empty());
        while i < self.modes.len()
            invariant
                direct@ == "direct"@,
                modes == self@.modes,
                modes.len() == self.modes@.len(),
                i <= self.modes.len(),
                match exact {
                    Some(k) => k < i && first_where(modes.take(i as int), is_direct()) == Some(
                        k as int,
                    ),
                    None => first_where(modes.take(i as int), is_direct()) is None,
                },
                match partial {
                    Some(k) => k < i && first_where(modes.take(i as int), mentions_direct())
                        == Some(k as int),
                    None => first_where(modes.take(i as int), mentions_direct()) is None,
                },
            decreases self.modes.len() - i,
        {
            assert(modes.take(i + 1).drop_last() =~= modes.take(i as int));
            let name = to_chars(self.modes[i].name.as_str());
            let low = to_lower(name.as_slice());
            if exact.is_none() && same(low.as_slice(), direct.as_slice()) {
                exact = Some(i);
            }
            if partial.is_none() && contains(low.as_slice(), direct.as_slice()) {
                partial = Some(i);
            }
            i += 1;
        }
        assert(modes.take(i as int) =~= modes);
        let position: Option<usize> = match exact {
            Some(k) => Some(k),
            None => partial,
        };
        match position {
            Some(k) => Some(&self.modes[k]),
            None => None,
        }
    }
}

// ---------------------------------------------------------------------------
// What is selected
// ---------------------------------------------------------------------------
/// The contents of several controllers are those of each.
pub proof fn controller_models_are_in_order(controllers: Seq<Controller>)
    ensures
        controller_models(controllers).len() == controllers.len(),
        forall|i: int|
            0 <= i < controllers.len() ==> controller_models(controllers)[i]
                == (#[trigger] controllers[i])@,
{
}

/// The texts by which a controller can be found.
pub open spec fn texts_of(c: ControllerModel) -> Seq<Seq<char>> {
    seq![c.name, c.vendor, c.description, c.location]
}

/// One of the texts of the controller holds the selector, in either case.
pub open spec fn answers_to(c: ControllerModel, selector: Seq<char>) -> bool {
    exists|i: int| 0 <= i < 4 && occurs_in(lowered(selector), lowered(#[trigger] texts_of(c)[i]))
}

proof fn lemma_answers_to(c: ControllerModel, selector: Seq<char>)
    ensures
        answers_to(c, selector) <==> is_called(lowered(selector))(c),
{
    let t = texts_of(c);
    let low = lowered(selector);
    assert(t[0] == c.name && t[1] == c.vendor && t[2] == c.description && t[3] == c.location);
    if is_called(low)(c) {
        assert(occurs_in(low, lowered(t[0])) || occurs_in(low, lowered(t[1])) || occurs_in(
            low,
            lowered(t[2]),
        ) || occurs_in(low, lowered(t[3])));
    }
}

/// A selector that is not the number of a controller selects the first controller whose name,
/// vendor, description or location holds it, in either case.
pub proof fn a_text_selects_the_first_that_holds_it(
    controllers: Seq<ControllerModel>,
    selector: Seq<char>,
    k: int,
)
    requires
        0 <= k < controllers.len(),
        answers_to(controllers[k], selector),
        forall|j: int|
            0 <= j < controllers.len() ==> number_in(selector, u32::MAX as nat) != Some(
                (#[trigger] controllers[j]).id as nat,
            ),
    ensures
        selected_controller(controllers, Some(selector)) matches Some(i) && 0 <= i <= k
            && answers_to(controllers[i], selector) && forall|j: int|
            0 <= j < i ==> !answers_to(#[trigger] controllers[j], selector),
{
    let fits = is_called(lowered(selector));
    if let Some(id) = number_in(selector, u32::MAX as nat) {
        first_where_is_first(controllers, has_id(id));
        if let Some(j) = first_where(controllers, has_id(id)) {
            assert(number_in(selector, u32::MAX as nat) != Some(controllers[j].id as nat));
        }
    }
    first_where_is_first(controllers, fits);
    lemma_answers_to(controllers[k], selector);
    assert(fits(controllers[k]));
    let i = first_where(controllers, fits)->Some_0;
    lemma_answers_to(controllers[i], selector);
    assert forall|j: int| 0 <= j < i implies !answers_to(#[trigger] controllers[j], selector) by {
        lemma_answers_to(controllers[j], selector);
    }
}

/// How many zones of a controller have a name that holds `addressable`, in either case.
pub open spec fn addressable_names(c: ControllerModel) -> nat {
    c.zones.filter(|zone: ZoneModel| occurs_in("addressable"@, lowered(zone.name))).len()
}

/// Without a selector, or with one that is neither a number of a controller nor in a text of one,
/// the controller with the most zones that are addressable by name is selected, among those with as
/// many the one with the most LEDs, and among those with as many of both the last.
pub proof fn otherwise_the_most_addressable_is_selected(
    controllers: Seq<ControllerModel>,
    selector: Option<Seq<char>>,
    k: int,
)
    requires
        0 <= k < controllers.len(),
        selector matches Some(s) ==> forall|j: int|
            0 <= j < controllers.len() ==> !answers_to(#[trigger] controllers[j], s) && number_in(
                s,
                u32::MAX as nat,
            ) != Some(controllers[j].id as nat),
    ensures
        selected_controller(controllers, selector) matches Some(i) && 0 <= i < controllers.len() && {
            let best = controllers[i];
            let other = controllers[k];
            ||| addressable_names(best) > addressable_names(other)
            ||| addressable_names(best) == addressable_names(other) && best.led_count
                > other.led_count
            ||| addressable_names(best) == addressable_names(other) && best.led_count
                == other.led_count && k <= i
        },
{
    if let Some(s) = selector {
        if let Some(id) = number_in(s, u32::MAX as nat) {
            first_where_is_first(controllers, has_id(id));
            if let Some(j) = first_where(controllers, has_id(id)) {
                assert(!answers_to(controllers[j], s));
            }
        }
        let fits = is_called(lowered(s));
        first_where_is_first(controllers, fits);
        if let Some(j) = first_where(controllers, fits) {
            lemma_answers_to(controllers[j], s);
        }
    }
    best_controller_is_most_promising(controllers);
    let i = best_controller(controllers)->Some_0;
    lemma_addressable_names(controllers[i]);
    lemma_addressable_names(controllers[k]);
}

proof fn lemma_addressable_names(c: ControllerModel)
    ensures
        addressable_zones(c) == addressable_names(c),
{
    counted_items_are_those_that_fit(c.zones, is_addressable());
    let fits = |zone: ZoneModel| occurs_in("addressable"@, lowered(zone.name));
    assert(is_addressable() =~= fits);
}

/// The direct mode is the first that is called `direct`, in either case, or else the first whose
/// name holds it; there is one wherever a name holds it.
pub proof fn the_direct_mode_is_found_by_name(modes: Seq<ModeModel>, k: int)
    requires
        0 <= k < modes.len(),
    ensures
        lowered(modes[k].name) == "direct"@ ==> (direct_mode_of(modes) matches Some(i) && 0 <= i
            <= k && lowered(modes[i].name) == "direct"@),
        (forall|j: int| 0 <= j < modes.len() ==> lowered((#[trigger] modes[j]).name) != "direct"@)
            && occurs_in("direct"@, lowered(modes[k].name)) ==> (direct_mode_of(
            modes,
        ) matches Some(i) && 0 <= i <= k && occurs_in("direct"@, lowered(modes[i].name))),
        direct_mode_of(modes) matches Some(i) ==> 0 <= i < modes.len() && occurs_in(
            "direct"@,
            lowered(modes[i].name),
        ),
{
    first_where_is_first(modes, is_direct());
    first_where_is_first(modes, mentions_direct());
    assert(is_direct()(modes[k]) <==> lowered(modes[k].name) == "direct"@);
    assert(mentions_direct()(modes[k]) <==> occurs_in("direct"@, lowered(modes[k].name)));
    if let Some(i) = first_where(modes, is_direct()) {
        let name = lowered(modes[i].name);
        assert(is_direct()(modes[i]));
        assert(name.subrange(0, name.len() as int) =~= name);
        assert(stands_at(name, "direct"@, 0));
    }
    if let Some(i) = first_where(modes, mentions_direct()) {
        assert(mentions_direct()(modes[i]));
    }
}

/// A selector names a controller exactly where it is the number of one or one of its texts holds
/// it.
pub proof fn selectors_name_by_number_or_text(controllers: Seq<ControllerModel>, selector: Seq<char>)
    ensures
        named_controller(controllers, selector) is Some <==> exists|j: int|
            0 <= j < controllers.len() && (answers_to(#[trigger] controllers[j], selector)
                || number_in(selector, u32::MAX as nat) == Some(controllers[j].id as nat)),
{
    let fits = is_called(lowered(selector));
    if let Some(id) = number_in(selector, u32::MAX as nat) {
        first_where_is_first(controllers, has_id(id));
    }
    first_where_is_first(controllers, fits);
    assert forall|j: int| 0 <= j < controllers.len() implies (answers_to(
        #[trigger] controllers[j],
        selector,
    ) <==> fits(controllers[j])) by {
        lemma_answers_to(controllers[j], selector);
    }
    if let Some(i) = named_controller(controllers, selector) {
        assert(answers_to(controllers[i], selector) <==> fits(controllers[i]));
    }
    if let Some(id) = number_in(selector, u32::MAX as nat) {
        assert forall|j: int| 0 <= j < controllers.len() implies (has_id(id)(
            #[trigger] controllers[j],
        ) <==> controllers[j].id as nat == id) by {}
    }
}

} // verus!
