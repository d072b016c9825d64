use vstd::prelude::*;

verus! {

/// The name of a star system.
#[derive(Clone, Debug, PartialEq, Eq, Hash)]
pub struct SystemId(pub String);

/// A directed jump between two systems.
#[derive(Debug)]
pub struct Connection {
    pub from: SystemId,
    pub to: SystemId,
    pub distance: usize,
}

/// The jumps available on a navigation map.
#[derive(Debug)]
pub struct Connections {
    pub connections: Vec<Connection>,
}

/// The names of the targets of the first `n` connections that leave `from`, in order.
pub open spec fn destinations(connections: Seq<Connection>, from: Seq<char>, n: int) -> Seq<Seq<char>>
    decreases n,
{
    if n <= 0 {
        Seq::empty()
    } else {
        let prev = destinations(connections, from, n - 1);
        if connections[n - 1].from.0@ == from {
            prev.push(connections[n - 1].to.0@)
        } else {
            prev
        }
    }
}

pub open spec fn system_names(ids: Seq<SystemId>) -> Seq<Seq<char>> {
    ids.map_values(|s: SystemId| s.0@)
}

impl Connections {
    pub fn new(connections: Vec<Connection>) -> (r: Connections)
        ensures
            r.connections@ == connections@,
    {
        Connections { connections }
    }

    /// Whether a connection leads from `from` straight to `to`.
    pub fn can_navigate_to(&self, from: &SystemId, to: &SystemId) -> (r: bool)
        ensures
            r == exists|k: int|
                0 <= k < self.connections@.len() && (#[trigger] self.connections@[k]).from.0@ == from.0@
                    && self.connections@[k].to.0@ == to.0@,
    {
        let mut k: usize = 0;
        while k < self.connections.len()
            invariant
                k <= self.connections@.len(),
                forall|j: int|
                    0 <= j < k ==> !((#[trigger] self.connections@[j]).from.0@ == from.0@
                        && self.connections@[j].to.0@ == to.0@),
            decreases self.connections@.len() - k,
        {
            let c = &self.connections[k];
            if c.from.0 == from.0 && c.to.0 == to.0 {
                return true;
            }
            k += 1;
        }
        false
    }

    /// The systems one jump away from `from`, in the order of the connections.
    pub fn get_navigatable_systems(&self, from: &SystemId) -> (r: Vec<SystemId>)
        ensures
            system_names(r@) == destinations(self.connections@, from.0@, self.connections@.len() as int),
    {
        let mut r: Vec<SystemId> = Vec::new();
        let mut k: usize = 0;
        while k < self.connections.len()
            invariant
                k <= self.connections@.len(),
                system_names(r@) == destinations(self.connections@, from.0@, k as int),
            decreases self.connections@.len() - k,
        {
            let c = &self.connections[k];
            if c.from.0 == from.0 {
                let ghost before = r@;
                r.push(SystemId(c.to.0.clone()));
                assert(system_names(r@) =~= system_names(before).push(c.to.0@));
            }
            k += 1;
        }
        r
    }

    pub fn connections(&self) -> (r: &Vec<Connection>)
        ensures
            r@ == self.connections@,
    {
        &self.connections
    }
}

} // verus!
