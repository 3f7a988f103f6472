//! Marker components that override how a client writes received data.
//!
//! A marker present on a client entity can redirect how replicated
//! components are written or removed there. Markers are kept sorted by
//! priority, highest first, so the highest-priority marker present wins.

use vstd::prelude::*;

verus! {

/// One registered marker: the component that acts as the marker and the
/// priority deciding between several markers on one entity.
#[derive(Clone, Copy, Debug, PartialEq, Eq, Structural)]
pub struct CommandMarker {
    pub component_id: u64,
    pub priority: usize,
}

/// Position of a marker in the sorted registry. An insertion may shift
/// previously returned indexes, so they must not be stored.
#[derive(Clone, Copy, Debug, PartialEq, Eq, Structural)]
pub struct CommandMarkerIndex {
    pub index: usize,
}

/// All registered markers, sorted by priority in descending order.
pub struct CommandMarkers {
    markers: Vec<CommandMarker>,
}

impl CommandMarkers {
    pub closed spec fn markers_view(self) -> Seq<CommandMarker> {
        self.markers@
    }

    /// Priorities never go up along the list.
    pub open spec fn sorted(self) -> bool {
        forall|i: int, j: int| 0 <= i < j < self.markers_view().len()
            ==> (#[trigger] self.markers_view()[i]).priority
                >= (#[trigger] self.markers_view()[j]).priority
    }

    pub fn new() -> (r: Self)
        ensures
            r.sorted(),
            r.markers_view().len() == 0,
    {
        CommandMarkers { markers: Vec::new() }
    }

    pub fn len(&self) -> (r: usize)
        ensures
            r == self.markers_view().len(),
    {
        self.markers.len()
    }

    /// Inserts a marker, keeping the list sorted by priority in descending
    /// order, and returns where it landed.
    pub fn insert(&mut self, marker: CommandMarker) -> (r: CommandMarkerIndex)
        requires
            old(self).sorted(),
        ensures
            final(self).sorted(),
            r.index <= old(self).markers_view().len(),
            final(self).markers_view()
                == old(self).markers_view().insert(r.index as int, marker),
    {
        let ghost pre = self.markers@;
        let mut i: usize = 0;
        while i < self.markers.len()
            invariant
                i <= self.markers@.len(),
                self.markers@ == pre,
                old(self).sorted(),
                pre == old(self).markers_view(),
                forall|j: int| 0 <= j < i ==> (#[trigger] pre[j]).priority >= marker.priority,
            decreases self.markers@.len() - i,
        {
            if self.markers[i].priority < marker.priority {
                self.markers.insert(i, marker);
                proof {
                    assert(self.markers@ == pre.insert(i as int, marker));
                    assert forall|a: int, b: int|
                        0 <= a < b < self.markers@.len() implies
                        (#[trigger] self.markers@[a]).priority
                            >= (#[trigger] self.markers@[b]).priority by {
                        let pa: int = if a < i { a } else { a - 1 };
                        let pb: int = if b < i { b } else { b - 1 };
                        if a == i {
                            assert(self.markers@[b] == pre[pb]);
                            assert(pre[i as int].priority >= pre[pb].priority);
                        } else if b == i {
                            assert(self.markers@[a] == pre[pa]);
                            assert(pre[pa].priority >= marker.priority);
                        } else {
                            assert(self.markers@[a] == pre[pa]);
                            assert(self.markers@[b] == pre[pb]);
                            assert(pre[pa].priority >= pre[pb].priority);
                        }
                    }
                }
                return CommandMarkerIndex { index: i };
            }
            i = i + 1;
        }
        let n = self.markers.len();
        self.markers.push(marker);
        proof {
            assert(self.markers@ =~= pre.insert(n as int, marker));
            assert forall|a: int, b: int| 0 <= a < b < self.markers@.len() implies
                (#[trigger] self.markers@[a]).priority
                    >= (#[trigger] self.markers@[b]).priority by {
                if b < n {
                    assert(self.markers@[a] == pre[a] && self.markers@[b] == pre[b]);
                } else {
                    assert(self.markers@[a] == pre[a]);
                }
            }
        }
        CommandMarkerIndex { index: n }
    }

    /// Position of the first marker registered for `component_id`: with
    /// duplicate component identifiers, the highest-priority one decides.
    pub fn marker_id(&self, component_id: u64) -> (r: Option<CommandMarkerIndex>)
        ensures
            match r {
                Some(idx) => {
                    &&& idx.index < self.markers_view().len()
                    &&& self.markers_view()[idx.index as int].component_id == component_id
                    &&& forall|i: int| 0 <= i < idx.index
                        ==> (#[trigger] self.markers_view()[i]).component_id != component_id
                },
                None => forall|i: int| 0 <= i < self.markers_view().len()
                    ==> (#[trigger] self.markers_view()[i]).component_id != component_id,
            },
    {
        let mut i: usize = 0;
        while i < self.markers.len()
            invariant
                i <= self.markers@.len(),
                forall|j: int| 0 <= j < i
                    ==> (#[trigger] self.markers@[j]).component_id != component_id,
            decreases self.markers@.len() - i,
        {
            if self.markers[i].component_id == component_id {
                return Some(CommandMarkerIndex { index: i });
            }
            i = i + 1;
        }
        None
    }

    /// For an entity carrying the given components, which registered
    /// markers are present, in priority order.
    pub fn iter_contains(&self, entity_components: &Vec<u64>) -> (r: Vec<bool>)
        ensures
            r@.len() == self.markers_view().len(),
            forall|i: int| 0 <= i < r@.len()
                ==> r@[i] == entity_components@.contains(
                    (#[trigger] self.markers_view()[i]).component_id),
    {
        let mut out: Vec<bool> = Vec::new();
        let mut i: usize = 0;
        while i < self.markers.len()
            invariant
                i <= self.markers@.len(),
                out@.len() == i,
                forall|j: int| 0 <= j < i
                    ==> out@[j] == entity_components@.contains(
                        (#[trigger] self.markers@[j]).component_id),
            decreases self.markers@.len() - i,
        {
            out.push(contains_u64(entity_components, self.markers[i].component_id));
            i = i + 1;
        }
        out
    }

    /// The priorities in list order, for inspection.
    pub fn priorities(&self) -> (r: Vec<usize>)
        ensures
            r@.len() == self.markers_view().len(),
            forall|i: int| 0 <= i < r@.len()
                ==> r@[i] == (#[trigger] self.markers_view()[i]).priority,
    {
        let mut out: Vec<usize> = Vec::new();
        let mut i: usize = 0;
        while i < self.markers.len()
            invariant
                i <= self.markers@.len(),
                out@.len() == i,
                forall|j: int| 0 <= j < i
                    ==> out@[j] == (#[trigger] self.markers@[j]).priority,
            decreases self.markers@.len() - i,
        {
            out.push(self.markers[i].priority);
            i = i + 1;
        }
        out
    }
}

/// True when `v@` holds `x`.
fn contains_u64(v: &Vec<u64>, x: u64) -> (r: bool)
    ensures
        r == v@.contains(x),
{
    let mut i: usize = 0;
    while i < v.len()
        invariant
            i <= v@.len(),
            forall|j: int| 0 <= j < i ==> v@[j] != x,
        decreases v@.len() - i,
    {
        if v[i] == x {
            return true;
        }
        i = i + 1;
    }
    proof {
        if v@.contains(x) {
            let j = choose|j: int| 0 <= j < v@.len() && v@[j] == x;
            assert(v@[j] != x);
        }
    }
    false
}

} // verus!
