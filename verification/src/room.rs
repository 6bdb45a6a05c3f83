//! A room: devices kept under distinct names, and the room's report.
use vstd::prelude::*;

use crate::error::{DeviceError, DeviceResult};
use crate::report::{all_ok, fails_first_at, ok_text, wraps_failure, Report};
use crate::naming::{
    distinct_names, lemma_map_of_at, lemma_map_of_dom, lemma_map_of_push,
    lemma_map_of_remove, lemma_map_of_replace, map_of, names_of,
};
use crate::text::same_text;

verus! {

/// The line of a room report for the device `name` that reported `text`.
pub open spec fn device_line(name: Seq<char>, text: Seq<char>) -> Seq<char> {
    "Device '"@ + name + "': "@ + text + "\n"@
}

/// How a room names a device whose report failed.
pub open spec fn device_target(name: Seq<char>) -> Seq<char> {
    "device '"@ + name + "'"@
}

/// The lines of the first `n` devices, from their reports.
pub open spec fn room_text(names: Seq<Seq<char>>, outcomes: Seq<DeviceResult<String>>, n: nat) -> Seq<
    char,
>
    decreases n,
{
    if n == 0 {
        Seq::empty()
    } else {
        room_text(names, outcomes, (n - 1) as nat) + device_line(
            names[n - 1],
            ok_text(outcomes[n - 1]),
        )
    }
}

/// Whether `r` is the report of a room whose devices, named `names` in
/// order, reported `outcomes`: all lines when all succeeded, else the first
/// failure under the failing device's name.
pub open spec fn assembles_room_report(
    names: Seq<Seq<char>>,
    outcomes: Seq<DeviceResult<String>>,
    r: DeviceResult<String>,
) -> bool {
    &&& outcomes.len() == names.len()
    &&& all_ok(outcomes, names.len() as int) ==> (r matches Ok(text) && text@ == room_text(
        names,
        outcomes,
        names.len(),
    ))
    &&& forall|k: int|
        #[trigger] fails_first_at(outcomes, k) ==> wraps_failure(r, device_target(names[k]), outcomes[k])
}

/// Whether `r` is a report that `room` can give: the one that its devices'
/// own reports make, each device asked in turn until one fails.
pub open spec fn is_room_report<D: Report>(room: SmartRoom<D>, r: DeviceResult<String>) -> bool {
    exists|outcomes: Seq<DeviceResult<String>>| #[trigger]
        assembles_room_report(names_of(room.entries()), outcomes, r) && forall|k: int|
            0 <= k < outcomes.len() && all_ok(outcomes, k) ==> call_ensures(
                D::report,
                (&room.entries()[k].1,),
                #[trigger] outcomes[k],
            )
}

/// A room of devices, seen as a map from device name to device.
pub trait Room<D>: Sized {
    /// The room's devices by name.
    spec fn devices(&self) -> Map<Seq<char>, D>;

    /// Whether the room is well formed.
    spec fn well_formed(&self) -> bool;

    /// A room that holds `devices`, put in one after the other: of two
    /// devices under one name, the later stays.
    fn new(devices: Vec<(String, D)>) -> (r: Self)
        ensures
            r.well_formed(),
            r.devices() == map_of(devices@),
    ;

    /// The device named `key`.
    fn get_device(&self, key: &str) -> (r: Option<&D>)
        requires
            self.well_formed(),
        ensures
            r is Some <==> self.devices().dom().contains(key@),
            r matches Some(d) ==> *d == self.devices()[key@],
    ;

    /// The device named `key`, to change in place.
    fn get_device_mut(&mut self, key: &str) -> (r: Option<&mut D>)
        requires
            old(self).well_formed(),
        ensures
            final(self).well_formed(),
            r is Some <==> old(self).devices().dom().contains(key@),
            r matches Some(d) ==> {
                &&& *d == old(self).devices()[key@]
                &&& final(self).devices() == old(self).devices().insert(key@, *final(d))
            },
            r is None ==> *final(self) == *old(self),
    ;

    /// Puts `device` in the room under `key`, in place of any device that
    /// was there under that name.
    fn add_device(&mut self, key: String, device: D)
        requires
            old(self).well_formed(),
        ensures
            final(self).well_formed(),
            final(self).devices() == old(self).devices().insert(key@, device),
    ;

    /// Takes the device named `key` out of the room, if there is one.
    fn remove_device(&mut self, key: &str)
        requires
            old(self).well_formed(),
        ensures
            final(self).well_formed(),
            final(self).devices() == old(self).devices().remove(key@),
    ;
}

/// Devices of one room, each under a name of its own.
#[derive(Debug)]
pub struct SmartRoom<D> {
    devices: Vec<(String, D)>,
}

impl<D> SmartRoom<D> {
    /// The room is well formed: one device for each name, and no name twice.
    pub closed spec fn wf(&self) -> bool {
        distinct_names(self.entries())
    }

    /// The devices with their names, in the order the room reports them.
    pub closed spec fn entries(&self) -> Seq<(String, D)> {
        self.devices@
    }

    /// The room as a map from device name to device.
    pub open spec fn device_map(&self) -> Map<Seq<char>, D> {
        map_of(self.entries())
    }

    /// A well-formed room never holds two devices under one name.
    pub proof fn law_names_distinct(&self)
        requires
            self.wf(),
        ensures
            distinct_names(self.entries()),
    {
    }

    /// A room whose device at `i` changed, and nothing else, stays well
    /// formed and maps that device's name to the new device.
    proof fn lemma_device_changed(room: Self, i: int)
        requires
            room.wf(),
            0 <= i < room.entries().len(),
        ensures
            forall|after: Self|
                #![trigger after.wf()]
                #![trigger after.device_map()]
                after.devices@ == room.devices@.update(i, (room.devices@[i].0, after.devices@[i].1))
                    ==> after.wf() && after.device_map() == room.device_map().insert(
                    room.devices@[i].0@,
                    after.devices@[i].1,
                ),
    {
        assert forall|after: Self|
            after.devices@ == room.devices@.update(i, (room.devices@[i].0, after.devices@[i].1))
                implies #[trigger] after.wf() && after.device_map() == room.device_map().insert(
                room.devices@[i].0@,
                after.devices@[i].1,
            ) by {
            lemma_map_of_replace(room.devices@, i, (room.devices@[i].0, after.devices@[i].1));
        }
    }

    /// An empty room.
    pub fn empty() -> (r: Self)
        ensures
            r.wf(),
            r.entries().len() == 0,
            r.device_map() == Map::<Seq<char>, D>::empty(),
    {
        let r = SmartRoom { devices: Vec::new() };
        assert(r.entries() =~= Seq::<(String, D)>::empty());
        r
    }

    /// A room that holds `devices`, put in one after the other: of two
    /// devices under one name, the later stays.
    pub fn new(devices: Vec<(String, D)>) -> (r: Self)
        ensures
            r.wf(),
            r.device_map() == map_of(devices@),
    {
        let mut room = SmartRoom::empty();
        let mut rest = devices;
        let ghost all = rest@;
        let ghost mut done: int = 0;
        assert(all.subrange(0, 0) =~= Seq::<(String, D)>::empty());
        while rest.len() > 0
            invariant
                0 <= done <= all.len(),
                rest@ =~= all.subrange(done, all.len() as int),
                room.wf(),
                room.device_map() == map_of(all.subrange(0, done)),
            decreases rest@.len(),
        {
            let (key, device) = rest.remove(0);
            room.add_device(key, device);
            proof {
                assert(all.subrange(0, done + 1).drop_last() =~= all.subrange(0, done));
                done = done + 1;
            }
        }
        assert(all.subrange(0, all.len() as int) =~= all);
        room
    }

    /// The position of the device named `key`.
    fn find(&self, key: &str) -> (r: Option<usize>)
        requires
            self.wf(),
        ensures
            r matches Some(i) ==> i < self.entries().len() && self.entries()[i as int].0@ == key@,
            r is None ==> forall|i: int|
                0 <= i < self.entries().len() ==> (#[trigger] self.entries()[i]).0@ != key@,
    {
        let n = self.devices.len();
        let mut i: usize = 0;
        while i < n
            invariant
                self.wf(),
                n == self.entries().len(),
                i <= n,
                forall|k: int| 0 <= k < i ==> (#[trigger] self.entries()[k]).0@ != key@,
            decreases n - i,
        {
            if same_text(self.devices[i].0.as_str(), key) {
                return Some(i);
            }
            i = i + 1;
        }
        None
    }

    /// The device named `key`.
    pub fn get_device(&self, key: &str) -> (r: Option<&D>)
        requires
            self.wf(),
        ensures
            r is Some <==> self.device_map().dom().contains(key@),
            r matches Some(d) ==> *d == self.device_map()[key@],
    {
        proof {
            lemma_map_of_dom(self.entries(), key@);
        }
        match self.find(key) {
            Some(i) => {
                proof {
                    lemma_map_of_at(self.entries(), i as int);
                }
                Some(&self.devices[i].1)
            },
            None => None,
        }
    }

    /// The device named `key`, to change in place.
    pub fn get_device_mut(&mut self, key: &str) -> (r: Option<&mut D>)
        requires
            old(self).wf(),
        ensures
            final(self).wf(),
            r is Some <==> old(self).device_map().dom().contains(key@),
            r matches Some(d) ==> {
                &&& *d == old(self).device_map()[key@]
                &&& final(self).device_map() == old(self).device_map().insert(key@, *final(d))
            },
            r is None ==> *final(self) == *old(self),
    {
        proof {
            lemma_map_of_dom(self.entries(), key@);
        }
        match self.find(key) {
            Some(i) => {
                let ghost before = self.entries();
                proof {
                    lemma_map_of_at(before, i as int);
                }
                proof {
                    Self::lemma_device_changed(*self, i as int);
                }
                let entry = &mut self.devices[i];
                Some(&mut entry.1)
            },
            None => None,
        }
    }

    /// Puts `device` in the room under `key`, in place of any device that
    /// was there under that name.
    pub fn add_device(&mut self, key: String, device: D)
        requires
            old(self).wf(),
        ensures
            final(self).wf(),
            final(self).device_map() == old(self).device_map().insert(key@, device),
    {
        let ghost before = self.entries();
        match self.find(key.as_str()) {
            Some(i) => {
                proof {
                    lemma_map_of_replace(before, i as int, (before[i as int].0, device));
                }
                let name = self.devices[i].0.clone();
                self.devices.set(i, (name, device));
            },
            None => {
                proof {
                    lemma_map_of_push(before, (key, device));
                }
                self.devices.push((key, device));
            },
        }
    }

    /// Takes the device named `key` out of the room, if there is one.
    pub fn remove_device(&mut self, key: &str)
        requires
            old(self).wf(),
        ensures
            final(self).wf(),
            final(self).device_map() == old(self).device_map().remove(key@),
    {
        let ghost before = self.entries();
        match self.find(key) {
            Some(i) => {
                proof {
                    lemma_map_of_remove(before, i as int);
                }
                self.devices.remove(i);
            },
            None => {
                proof {
                    lemma_map_of_dom(before, key@);
                    assert(map_of(before) =~= map_of(before).remove(key@));
                }
            },
        }
    }
}

impl<D> Room<D> for SmartRoom<D> {
    open spec fn devices(&self) -> Map<Seq<char>, D> {
        self.device_map()
    }

    open spec fn well_formed(&self) -> bool {
        self.wf()
    }

    fn new(devices: Vec<(String, D)>) -> (r: Self) {
        SmartRoom::new(devices)
    }

    fn get_device(&self, key: &str) -> (r: Option<&D>) {
        SmartRoom::get_device(self, key)
    }

    fn get_device_mut(&mut self, key: &str) -> (r: Option<&mut D>) {
        SmartRoom::get_device_mut(self, key)
    }

    fn add_device(&mut self, key: String, device: D) {
        SmartRoom::add_device(self, key, device)
    }

    fn remove_device(&mut self, key: &str) {
        SmartRoom::remove_device(self, key)
    }
}

impl<D: Report> SmartRoom<D> {
    /// The room's report: a line `Device '<name>': <report>` for each device.
    pub fn report(&self) -> (r: DeviceResult<String>)
        ensures
            is_room_report(*self, r),
    {
        let ghost names = names_of(self.entries());
        let mut text = String::new();
        let n = self.devices.len();
        let mut i: usize = 0;
        let ghost mut outcomes: Seq<DeviceResult<String>> = Seq::empty();
        while i < n
            invariant
                n == self.devices@.len(),
                names == names_of(self.entries()),
                i <= n,
                outcomes.len() == i,
                all_ok(outcomes, i as int),
                forall|k: int|
                    0 <= k < i ==> call_ensures(D::report, (&self.entries()[k].1,), #[trigger] outcomes[k]),
                text@ == room_text(names, outcomes, i as nat),
            decreases n - i,
        {
            let name = &self.devices[i].0;
            let outcome = self.devices[i].1.report();
            let ghost got = outcome;
            assert(call_ensures(D::report, (&self.entries()[i as int].1,), got));
            match outcome {
                Err(e) => {
                    let mut target = String::from_str("device '");
                    target.append(name.as_str());
                    target.append("'");
                    let ghost failed = Err::<String, DeviceError>(e);
                    let ghost full = outcomes.push(failed) + Seq::new(
                        (n - i - 1) as nat,
                        |j: int| failed,
                    );
                    let r = Err(DeviceError::report(target, e));
                    proof {
                        assert forall|k: int|
                            0 <= k < full.len() && all_ok(full, k) implies call_ensures(
                            D::report,
                            (&self.entries()[k].1,),
                            #[trigger] full[k],
                        ) by {
                            if k < i {
                                assert(full[k] == outcomes[k]);
                            } else if k > i {
                                assert(full[i as int] is Err);
                            } else {
                                assert(full[k] == got);
                            }
                        }
                        assert forall|k: int| #[trigger] fails_first_at(full, k) implies wraps_failure(
                            r,
                            device_target(names[k]),
                            full[k],
                        ) by {
                            if k < i {
                                assert(outcomes[k] is Ok);
                                assert(full[k] == outcomes[k]);
                            } else if k > i {
                                assert(full[i as int] is Err);
                            }
                        }
                        assert(!all_ok(full, n as int)) by {
                            assert(full[i as int] is Err);
                        }
                        assert(assembles_room_report(names, full, r));
                    }
                    return r;
                },
                Ok(t) => {
                    text.append("Device '");
                    text.append(name.as_str());
                    text.append("': ");
                    text.append(t.as_str());
                    text.append("\n");
                    proof {
                        let next = outcomes.push(Ok::<String, DeviceError>(t));
                        assert(next[i as int] == got);
                        assert forall|k: int| 0 <= k < i + 1 implies call_ensures(
                            D::report,
                            (&self.entries()[k].1,),
                            #[trigger] next[k],
                        ) by {
                            if k < i {
                                assert(next[k] == outcomes[k]);
                            }
                        }
                        assert(next.subrange(0, i as int) =~= outcomes);
                        assert(room_text(names, next, i as nat) == room_text(names, outcomes, i as nat)) by {
                            lemma_room_text_prefix(names, outcomes, next, i as nat);
                        }
                        outcomes = next;
                    }
                },
            }
            i = i + 1;
        }
        let r = Ok(text);
        proof {
            assert forall|k: int| #[trigger] fails_first_at(outcomes, k) implies wraps_failure(
                r,
                device_target(names[k]),
                outcomes[k],
            ) by {}
            assert(assembles_room_report(names, outcomes, r));
        }
        r
    }
}

impl<D: Report> Report for SmartRoom<D> {
    fn report(&self) -> (r: DeviceResult<String>)
        ensures
            is_room_report(*self, r),
    {
        SmartRoom::report(self)
    }
}

/// The lines of the first `n` devices depend on those devices alone.
proof fn lemma_room_text_prefix(
    names: Seq<Seq<char>>,
    a: Seq<DeviceResult<String>>,
    b: Seq<DeviceResult<String>>,
    n: nat,
)
    requires
        n <= a.len(),
        n <= b.len(),
        forall|i: int| 0 <= i < n ==> a[i] == b[i],
    ensures
        room_text(names, a, n) == room_text(names, b, n),
    decreases n,
{
    if n > 0 {
        lemma_room_text_prefix(names, a, b, (n - 1) as nat);
    }
}

} // verus!
