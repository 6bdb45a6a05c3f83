//! A home: rooms kept under distinct names, devices found by room and
//! device name, and the home's report.
use vstd::prelude::*;

use crate::error::{describes, DeviceError, DeviceResult, HomeError};
use crate::report::{all_ok, fails_first_at, ok_text, wraps_failure, Report};
use crate::naming::{
    distinct_names, lemma_map_of_at, lemma_map_of_dom, lemma_map_of_push,
    lemma_map_of_remove, lemma_map_of_replace, map_of, names_of,
};
use crate::room::{is_room_report, SmartRoom};
use crate::text::{lines, lines_of, same_text};

verus! {

/// The report lines of a room, each indented under the room's heading.
pub open spec fn indented_lines(lines: Seq<Seq<char>>, n: nat) -> Seq<char>
    decreases n,
{
    if n == 0 {
        Seq::empty()
    } else {
        indented_lines(lines, (n - 1) as nat) + "    - "@ + lines[n - 1] + "\n"@
    }
}

/// The part of a home report for the room `name` that reported `text`.
pub open spec fn room_block(name: Seq<char>, text: Seq<char>) -> Seq<char> {
    " - Room '"@ + name + "':\n"@ + indented_lines(lines_of(text), lines_of(text).len())
}

/// How a home names a room whose report failed.
pub open spec fn room_target(name: Seq<char>) -> Seq<char> {
    "room '"@ + name + "'"@
}

/// The heading and the parts of the first `n` rooms, from their reports.
pub open spec fn home_text(names: Seq<Seq<char>>, outcomes: Seq<DeviceResult<String>>, n: nat) -> Seq<
    char,
>
    decreases n,
{
    if n == 0 {
        "Home:\n"@
    } else {
        home_text(names, outcomes, (n - 1) as nat) + room_block(
            names[n - 1],
            ok_text(outcomes[n - 1]),
        )
    }
}

/// Whether `r` is the report of a home whose rooms, named `names` in order,
/// reported `outcomes`: the heading and every room's part when all
/// succeeded, else the first failure under the failing room's name.
pub open spec fn assembles_home_report(
    names: Seq<Seq<char>>,
    outcomes: Seq<DeviceResult<String>>,
    r: DeviceResult<String>,
) -> bool {
    &&& outcomes.len() == names.len()
    &&& all_ok(outcomes, names.len() as int) ==> (r matches Ok(text) && text@ == home_text(
        names,
        outcomes,
        names.len(),
    ))
    &&& forall|k: int|
        #[trigger] fails_first_at(outcomes, k) ==> wraps_failure(r, room_target(names[k]), outcomes[k])
}

/// Whether `r` is a report that `home` can give: one its rooms' reports,
/// whatever they were, make; each room that was asked gave a report it can
/// give.
pub open spec fn is_home_report<D: Report>(home: SmartHome<D>, r: DeviceResult<String>) -> bool {
    exists|outcomes: Seq<DeviceResult<String>>| #[trigger]
        assembles_home_report(names_of(home.entries()), outcomes, r) && forall|k: int|
            0 <= k < outcomes.len() && all_ok(outcomes, k) ==> is_room_report(
                home.entries()[k].1,
                #[trigger] outcomes[k],
            )
}

/// A home of rooms, seen as a map from room name to room.
pub trait Home<D>: Sized {
    /// The home's rooms by name.
    spec fn rooms(&self) -> Map<Seq<char>, SmartRoom<D>>;

    /// Whether the home is well formed.
    spec fn well_formed(&self) -> bool;

    /// A home of the given rooms, put in one after the other: of two rooms
    /// under one name, the later stays.
    fn new(rooms: Vec<(String, SmartRoom<D>)>) -> (h: Self)
        requires
            forall|i: int| 0 <= i < rooms@.len() ==> (#[trigger] rooms@[i]).1.wf(),
        ensures
            h.well_formed(),
            h.rooms() == map_of(rooms@),
    ;

    /// The room named `key`.
    fn get_room(&self, key: &str) -> (r: Option<&SmartRoom<D>>)
        requires
            self.well_formed(),
        ensures
            r is Some <==> self.rooms().dom().contains(key@),
            r matches Some(room) ==> *room == self.rooms()[key@] && room.wf(),
    ;

    /// The room named `key`, to change in place; the home stays well formed
    /// as long as the room does.
    fn get_room_mut(&mut self, key: &str) -> (r: Option<&mut SmartRoom<D>>)
        requires
            old(self).well_formed(),
        ensures
            r is Some <==> old(self).rooms().dom().contains(key@),
            r matches Some(room) ==> {
                &&& *room == old(self).rooms()[key@]
                &&& room.wf()
                &&& final(room).wf() ==> final(self).well_formed()
                &&& final(self).rooms() == old(self).rooms().insert(key@, *final(room))
            },
            r is None ==> *final(self) == *old(self),
    ;

    /// Puts `room` in the home under `key`, in place of any room that was
    /// there under that name.
    fn add_room(&mut self, key: String, room: SmartRoom<D>)
        requires
            old(self).well_formed(),
            room.wf(),
        ensures
            final(self).well_formed(),
            final(self).rooms() == old(self).rooms().insert(key@, room),
    ;

    /// Takes the room named `key` out of the home, if there is one.
    fn remove_room(&mut self, key: &str)
        requires
            old(self).well_formed(),
        ensures
            final(self).well_formed(),
            final(self).rooms() == old(self).rooms().remove(key@),
    ;

    /// The device `device_key` of the room `room_key`.
    fn get_device(&self, room_key: &str, device_key: &str) -> (r: Result<&D, HomeError>)
        requires
            self.well_formed(),
        ensures
            !self.rooms().dom().contains(room_key@) ==> (r matches Err(
                HomeError::RoomNotFound(name),
            ) && name@ == room_key@),
            self.rooms().dom().contains(room_key@) ==> {
                let room = self.rooms()[room_key@];
                &&& !room.device_map().dom().contains(device_key@) ==> (r matches Err(
                    HomeError::DeviceNotFound(name),
                ) && name@ == device_key@)
                &&& room.device_map().dom().contains(device_key@) ==> r == Ok::<&D, HomeError>(
                    &room.device_map()[device_key@],
                )
            },
    ;

    /// The device `device_key` of the room `room_key`, to change in place.
    fn get_device_mut(&mut self, room_key: &str, device_key: &str) -> (r: Result<
        &mut D,
        HomeError,
    >)
        requires
            old(self).well_formed(),
        ensures
            final(self).well_formed(),
            !old(self).rooms().dom().contains(room_key@) ==> {
                &&& r matches Err(HomeError::RoomNotFound(name)) && name@ == room_key@
                &&& *final(self) == *old(self)
            },
            old(self).rooms().dom().contains(room_key@) ==> {
                let room = old(self).rooms()[room_key@];
                let room_after = final(self).rooms()[room_key@];
                &&& final(self).rooms() == old(self).rooms().insert(room_key@, room_after)
                &&& !room.device_map().dom().contains(device_key@) ==> {
                    &&& r matches Err(HomeError::DeviceNotFound(name)) && name@ == device_key@
                    &&& room_after == room
                }
                &&& room.device_map().dom().contains(device_key@) ==> {
                    &&& r matches Ok(d) && *d == room.device_map()[device_key@]
                        && room_after.device_map() == room.device_map().insert(device_key@, *final(d))
                }
            },
    ;
}

/// Rooms of one home, each under a name of its own.
#[derive(Debug)]
pub struct SmartHome<D> {
    rooms: Vec<(String, SmartRoom<D>)>,
}

impl<D> SmartHome<D> {
    /// The home is well formed: no room name twice, and every room well
    /// formed.
    pub closed spec fn wf(&self) -> bool {
        &&& distinct_names(self.entries())
        &&& forall|i: int| 0 <= i < self.entries().len() ==> (#[trigger] self.entries()[i]).1.wf()
    }

    /// The rooms with their names, in the order the home reports them.
    pub closed spec fn entries(&self) -> Seq<(String, SmartRoom<D>)> {
        self.rooms@
    }

    /// The home as a map from room name to room.
    pub open spec fn room_map(&self) -> Map<Seq<char>, SmartRoom<D>> {
        map_of(self.entries())
    }

    /// A well-formed home never holds two rooms under one name, and each of
    /// its rooms is well formed.
    pub proof fn law_names_distinct(&self)
        requires
            self.wf(),
        ensures
            distinct_names(self.entries()),
            forall|name: Seq<char>| #[trigger] self.room_map().dom().contains(name) ==> self.room_map()[name].wf(),
    {
        assert forall|name: Seq<char>| #[trigger] self.room_map().dom().contains(name) implies self.room_map()[name].wf() by {
            lemma_map_of_dom(self.entries(), name);
            let i = choose|i: int| 0 <= i < self.entries().len() && (#[trigger] self.entries()[i]).0@ == name;
            lemma_map_of_at(self.entries(), i);
        }
    }

    /// A home of the given rooms, put in one after the other: of two rooms
    /// under one name, the later stays.
    pub fn new(rooms: Vec<(String, SmartRoom<D>)>) -> (h: Self)
        requires
            forall|i: int| 0 <= i < rooms@.len() ==> (#[trigger] rooms@[i]).1.wf(),
        ensures
            h.wf(),
            h.room_map() == map_of(rooms@),
    {
        let mut home = SmartHome { rooms: Vec::new() };
        assert(home.entries() =~= Seq::<(String, SmartRoom<D>)>::empty());
        let mut rest = rooms;
        let ghost all = rest@;
        let ghost mut done: int = 0;
        assert(all.subrange(0, 0) =~= Seq::<(String, SmartRoom<D>)>::empty());
        while rest.len() > 0
            invariant
                0 <= done <= all.len(),
                forall|i: int| 0 <= i < all.len() ==> (#[trigger] all[i]).1.wf(),
                rest@ =~= all.subrange(done, all.len() as int),
                home.wf(),
                home.room_map() == map_of(all.subrange(0, done)),
            decreases rest@.len(),
        {
            assert(rest@[0] == all[done]);
            let (key, room) = rest.remove(0);
            home.add_room(key, room);
            proof {
                assert(all.subrange(0, done + 1).drop_last() =~= all.subrange(0, done));
                done = done + 1;
            }
        }
        assert(all.subrange(0, all.len() as int) =~= all);
        home
    }

    /// The position of the room named `key`.
    fn find(&self, key: &str) -> (r: Option<usize>)
        ensures
            r matches Some(i) ==> i < self.entries().len() && self.entries()[i as int].0@ == key@,
            r is None ==> forall|i: int|
                0 <= i < self.entries().len() ==> (#[trigger] self.entries()[i]).0@ != key@,
    {
        let n = self.rooms.len();
        let mut i: usize = 0;
        while i < n
            invariant
                n == self.entries().len(),
                i <= n,
                forall|k: int| 0 <= k < i ==> (#[trigger] self.entries()[k]).0@ != key@,
            decreases n - i,
        {
            if same_text(self.rooms[i].0.as_str(), key) {
                return Some(i);
            }
            i = i + 1;
        }
        None
    }

    /// The room named `key`.
    pub fn get_room(&self, key: &str) -> (r: Option<&SmartRoom<D>>)
        requires
            self.wf(),
        ensures
            r is Some <==> self.room_map().dom().contains(key@),
            r matches Some(room) ==> *room == self.room_map()[key@] && room.wf(),
    {
        proof {
            lemma_map_of_dom(self.entries(), key@);
        }
        match self.find(key) {
            Some(i) => {
                proof {
                    lemma_map_of_at(self.entries(), i as int);
                }
                Some(&self.rooms[i].1)
            },
            None => None,
        }
    }

    /// A room whose entry at `i` changed its room, and nothing else, maps
    /// that name to the new room, and stays well formed if the room is.
    proof fn lemma_room_changed(home: Self, i: int)
        requires
            home.wf(),
            0 <= i < home.entries().len(),
        ensures
            forall|after: Self|
                #![trigger after.wf()]
                #![trigger after.room_map()]
                after.rooms@ == home.rooms@.update(i, (home.rooms@[i].0, after.rooms@[i].1)) ==> {
                    &&& after.rooms@[i].1.wf() ==> after.wf()
                    &&& after.room_map() == home.room_map().insert(
                        home.rooms@[i].0@,
                        after.rooms@[i].1,
                    )
                },
    {
        assert forall|after: Self|
            #![trigger after.wf()]
            #![trigger after.room_map()]
            after.rooms@ == home.rooms@.update(i, (home.rooms@[i].0, after.rooms@[i].1)) implies {
            &&& after.rooms@[i].1.wf() ==> after.wf()
            &&& after.room_map() == home.room_map().insert(home.rooms@[i].0@, after.rooms@[i].1)
        } by {
            lemma_map_of_replace(home.rooms@, i, (home.rooms@[i].0, after.rooms@[i].1));
            if after.rooms@[i].1.wf() {
                assert forall|j: int| 0 <= j < after.entries().len() implies (
                #[trigger] after.entries()[j]).1.wf() by {
                    if j != i {
                        assert(after.entries()[j] == home.entries()[j]);
                    }
                }
            }
        }
    }

    /// The room named `key`, to change in place; the home stays well formed
    /// as long as the room does.
    pub fn get_room_mut(&mut self, key: &str) -> (r: Option<&mut SmartRoom<D>>)
        requires
            old(self).wf(),
        ensures
            r is Some <==> old(self).room_map().dom().contains(key@),
            r matches Some(room) ==> {
                &&& *room == old(self).room_map()[key@]
                &&& room.wf()
                &&& final(room).wf() ==> final(self).wf()
                &&& final(self).room_map() == old(self).room_map().insert(key@, *final(room))
            },
            r is None ==> *final(self) == *old(self),
    {
        proof {
            lemma_map_of_dom(self.entries(), key@);
        }
        match self.find(key) {
            Some(i) => {
                proof {
                    lemma_map_of_at(self.entries(), i as int);
                    Self::lemma_room_changed(*self, i as int);
                }
                let entry = &mut self.rooms[i];
                Some(&mut entry.1)
            },
            None => None,
        }
    }

    /// Puts `room` in the home under `key`, in place of any room that was
    /// there under that name.
    pub fn add_room(&mut self, key: String, room: SmartRoom<D>)
        requires
            old(self).wf(),
            room.wf(),
        ensures
            final(self).wf(),
            final(self).room_map() == old(self).room_map().insert(key@, room),
    {
        let ghost before = self.entries();
        match self.find(key.as_str()) {
            Some(i) => {
                proof {
                    lemma_map_of_replace(before, i as int, (before[i as int].0, room));
                }
                let name = self.rooms[i].0.clone();
                self.rooms.set(i, (name, room));
                assert forall|j: int| 0 <= j < self.entries().len() implies (
                #[trigger] self.entries()[j]).1.wf() by {
                    if j != i {
                        assert(self.entries()[j] == before[j]);
                    }
                }
            },
            None => {
                proof {
                    lemma_map_of_push(before, (key, room));
                }
                self.rooms.push((key, room));
                assert forall|j: int| 0 <= j < self.entries().len() implies (
                #[trigger] self.entries()[j]).1.wf() by {
                    if j < before.len() {
                        assert(self.entries()[j] == before[j]);
                    }
                }
            },
        }
    }

    /// Takes the room named `key` out of the home, if there is one.
    pub fn remove_room(&mut self, key: &str)
        requires
            old(self).wf(),
        ensures
            final(self).wf(),
            final(self).room_map() == old(self).room_map().remove(key@),
    {
        let ghost before = self.entries();
        match self.find(key) {
            Some(i) => {
                proof {
                    lemma_map_of_remove(before, i as int);
                }
                self.rooms.remove(i);
                assert forall|j: int| 0 <= j < self.entries().len() implies (
                #[trigger] self.entries()[j]).1.wf() by {
                    if j < i {
                        assert(self.entries()[j] == before[j]);
                    } else {
                        assert(self.entries()[j] == before[j + 1]);
                    }
                }
            },
            None => {
                proof {
                    lemma_map_of_dom(before, key@);
                    assert(map_of(before) =~= map_of(before).remove(key@));
                }
            },
        }
    }

    /// The device `device_key` of the room `room_key`.
    pub fn get_device(&self, room_key: &str, device_key: &str) -> (r: Result<&D, HomeError>)
        requires
            self.wf(),
        ensures
            !self.room_map().dom().contains(room_key@) ==> (r matches Err(
                HomeError::RoomNotFound(name),
            ) && name@ == room_key@),
            self.room_map().dom().contains(room_key@) ==> {
                let room = self.room_map()[room_key@];
                &&& !room.device_map().dom().contains(device_key@) ==> (r matches Err(
                    HomeError::DeviceNotFound(name),
                ) && name@ == device_key@)
                &&& room.device_map().dom().contains(device_key@) ==> r == Ok::<&D, HomeError>(
                    &room.device_map()[device_key@],
                )
            },
    {
        match self.get_room(room_key) {
            None => Err(HomeError::RoomNotFound(room_key.to_owned())),
            Some(room) => match room.get_device(device_key) {
                None => Err(HomeError::DeviceNotFound(device_key.to_owned())),
                Some(device) => Ok(device),
            },
        }
    }

    /// The device `device_key` of the room `room_key`, to change in place.
    pub fn get_device_mut(&mut self, room_key: &str, device_key: &str) -> (r: Result<
        &mut D,
        HomeError,
    >)
        requires
            old(self).wf(),
        ensures
            final(self).wf(),
            !old(self).room_map().dom().contains(room_key@) ==> {
                &&& r matches Err(HomeError::RoomNotFound(name)) && name@ == room_key@
                &&& *final(self) == *old(self)
            },
            old(self).room_map().dom().contains(room_key@) ==> {
                let room = old(self).room_map()[room_key@];
                let room_after = final(self).room_map()[room_key@];
                &&& final(self).room_map() == old(self).room_map().insert(room_key@, room_after)
                &&& !room.device_map().dom().contains(device_key@) ==> {
                    &&& r matches Err(HomeError::DeviceNotFound(name)) && name@ == device_key@
                    &&& room_after == room
                }
                &&& room.device_map().dom().contains(device_key@) ==> {
                    &&& r matches Ok(d) && *d == room.device_map()[device_key@]
                        && room_after.device_map() == room.device_map().insert(device_key@, *final(d))
                }
            },
    {
        match self.get_room_mut(room_key) {
            None => Err(HomeError::RoomNotFound(room_key.to_owned())),
            Some(room) => match room.get_device_mut(device_key) {
                None => Err(HomeError::DeviceNotFound(device_key.to_owned())),
                Some(device) => Ok(device),
            },
        }
    }
}

impl<D> Home<D> for SmartHome<D> {
    open spec fn rooms(&self) -> Map<Seq<char>, SmartRoom<D>> {
        self.room_map()
    }

    open spec fn well_formed(&self) -> bool {
        self.wf()
    }

    fn new(rooms: Vec<(String, SmartRoom<D>)>) -> (h: Self) {
        SmartHome::new(rooms)
    }

    fn get_room(&self, key: &str) -> (r: Option<&SmartRoom<D>>) {
        SmartHome::get_room(self, key)
    }

    fn get_room_mut(&mut self, key: &str) -> (r: Option<&mut SmartRoom<D>>) {
        SmartHome::get_room_mut(self, key)
    }

    fn add_room(&mut self, key: String, room: SmartRoom<D>) {
        SmartHome::add_room(self, key, room)
    }

    fn remove_room(&mut self, key: &str) {
        SmartHome::remove_room(self, key)
    }

    fn get_device(&self, room_key: &str, device_key: &str) -> (r: Result<&D, HomeError>) {
        SmartHome::get_device(self, room_key, device_key)
    }

    fn get_device_mut(&mut self, room_key: &str, device_key: &str) -> (r: Result<
        &mut D,
        HomeError,
    >) {
        SmartHome::get_device_mut(self, room_key, device_key)
    }
}

impl<D: Report> SmartHome<D> {
    /// The home's report: a heading, then for each room a line
    /// ` - Room '<name>':` and each line of the room's report, indented.
    pub fn report(&self) -> (r: DeviceResult<String>)
        ensures
            is_home_report(*self, r),
    {
        let ghost names = names_of(self.entries());
        let mut text = String::from_str("Home:\n");
        let n = self.rooms.len();
        let mut i: usize = 0;
        let ghost mut outcomes: Seq<DeviceResult<String>> = Seq::empty();
        while i < n
            invariant
                n == self.entries().len(),
                names == names_of(self.entries()),
                i <= n,
                outcomes.len() == i,
                all_ok(outcomes, i as int),
                forall|k: int| 0 <= k < i ==> is_room_report(self.entries()[k].1, #[trigger] outcomes[k]),
                text@ == home_text(names, outcomes, i as nat),
            decreases n - i,
        {
            let name = &self.rooms[i].0;
            let outcome = self.rooms[i].1.report();
            match outcome {
                Err(e) => {
                    let mut target = String::from_str("room '");
                    target.append(name.as_str());
                    target.append("'");
                    let ghost failed = Err::<String, DeviceError>(e);
                    let ghost full = outcomes.push(failed) + Seq::new(
                        (n - i - 1) as nat,
                        |j: int| failed,
                    );
                    let r = Err(DeviceError::report(target, e));
                    proof {
                        assert forall|k: int| #[trigger] fails_first_at(full, k) implies wraps_failure(
                            r,
                            room_target(names[k]),
                            full[k],
                        ) by {
                            if k < i {
                                assert(outcomes[k] is Ok);
                                assert(full[k] == outcomes[k]);
                            } else if k > i {
                                assert(full[i as int] is Err);
                            }
                        }
                        assert(!all_ok(full, n as int)) by {
                            assert(full[i as int] is Err);
                        }
                        assert forall|k: int|
                            0 <= k < full.len() && all_ok(full, k) implies is_room_report(
                            self.entries()[k].1,
                            #[trigger] full[k],
                        ) by {
                            if k < i {
                                assert(full[k] == outcomes[k]);
                            } else if k > i {
                                assert(full[i as int] is Err);
                            }
                        }
                        assert(assembles_home_report(names, full, r));
                    }
                    return r;
                },
                Ok(t) => {
                    text.append(" - Room '");
                    text.append(name.as_str());
                    text.append("':\n");
                    let ghost head = text@;
                    let room_lines = lines(t.as_str());
                    let ghost ls = lines_of(t@);
                    let m = room_lines.len();
                    let mut j: usize = 0;
                    while j < m
                        invariant
                            m == room_lines@.len(),
                            m == ls.len(),
                            forall|k: int| 0 <= k < m ==> (#[trigger] room_lines@[k])@ == ls[k],
                            j <= m,
                            text@ == head + indented_lines(ls, j as nat),
                        decreases m - j,
                    {
                        text.append("    - ");
                        text.append(room_lines[j]);
                        text.append("\n");
                        j = j + 1;
                    }
                    proof {
                        let next = outcomes.push(Ok::<String, DeviceError>(t));
                        assert(next.subrange(0, i as int) =~= outcomes);
                        lemma_home_text_prefix(names, outcomes, next, i as nat);
                        outcomes = next;
                    }
                },
            }
            i = i + 1;
        }
        let r = Ok(text);
        proof {
            assert forall|k: int| #[trigger] fails_first_at(outcomes, k) implies wraps_failure(
                r,
                room_target(names[k]),
                outcomes[k],
            ) by {}
            assert(assembles_home_report(names, outcomes, r));
        }
        r
    }
}

impl<D: Report> SmartHome<D> {
    /// The home as text: its report, or what kept it from reporting.
    pub fn to_text(&self) -> (t: String)
        ensures
            exists|r: DeviceResult<String>| #[trigger]
                is_home_report(*self, r) && match r {
                    Ok(text) => t@ == text@,
                    Err(e) => t@.len() >= 24 && t@.subrange(0, 24) == "failed to build report: "@
                        && describes(e, t@.subrange(24, t@.len() as int)),
                },
    {
        let r = self.report();
        match r {
            Ok(text) => text,
            Err(e) => {
                let mut t = String::from_str("failed to build report: ");
                let m = e.message();
                let ghost head = t@;
                t.append(m.as_str());
                proof {
                    reveal_strlit("failed to build report: ");
                    assert(t@.subrange(0, 24) =~= head);
                    assert(t@.subrange(24, t@.len() as int) =~= m@);
                }
                t
            },
        }
    }
}

impl<D: Report> Report for SmartHome<D> {
    fn report(&self) -> (r: DeviceResult<String>)
        ensures
            is_home_report(*self, r),
    {
        SmartHome::report(self)
    }
}

/// The text of the first `n` rooms depends on those rooms alone.
proof fn lemma_home_text_prefix(
    names: Seq<Seq<char>>,
    a: Seq<DeviceResult<String>>,
    b: Seq<DeviceResult<String>>,
    n: nat,
)
    requires
        n <= a.len(),
        n <= b.len(),
        forall|i: int| 0 <= i < n ==> a[i] == b[i],
    ensures
        home_text(names, a, n) == home_text(names, b, n),
    decreases n,
{
    if n > 0 {
        lemma_home_text_prefix(names, a, b, (n - 1) as nat);
    }
}

} // verus!
