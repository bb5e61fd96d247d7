//! A provider of named connections. Nothing flows through a connection yet:
//! a registered name can be opened once, and every other request is refused.

use vstd::prelude::*;
use vstd::hash_map::StringHashMap;
use vstd::set_lib::lemma_len_subset;

verus! {

/// Why a request to the provider was refused.
#[derive(Clone, Copy, Debug, PartialEq, Eq, Structural)]
pub enum SchemeError {
    /// The name is not registered, or its connection is already open.
    Busy,
    /// The identifier does not stand for a connection that carries data.
    BadDescriptor,
}

/// The provider: the registered names, each with the identifier under which
/// its connection is open, if it is, and the identifier that the next
/// connection gets.
pub struct DemonScheme {
    connections: StringHashMap<Option<usize>>,
    next_id: usize,
}

/// What a [`DemonScheme`] holds.
pub struct DemonSchemeView {
    pub connections: Map<Seq<char>, Option<usize>>,
    pub next_id: usize,
}

/// The names whose connection is open.
pub open spec fn open_names(connections: Map<Seq<char>, Option<usize>>) -> Set<Seq<char>> {
    Set::new(|name: Seq<char>| connections.contains_key(name) && connections[name] is Some)
}

impl DemonSchemeView {
    /// The provider with the given names registered and no connection open.
    pub open spec fn registered(names: Seq<Seq<char>>) -> DemonSchemeView {
        DemonSchemeView {
            connections: Map::new(|name: Seq<char>| names.contains(name), |name: Seq<char>| None),
            next_id: 0,
        }
    }

    /// The name is registered and its connection is not open.
    pub open spec fn free(self, name: Seq<char>) -> bool {
        self.connections.contains_key(name) && self.connections[name] is None
    }

    /// The provider after the connection `name` has been opened.
    pub open spec fn opened(self, name: Seq<char>) -> DemonSchemeView {
        DemonSchemeView {
            connections: self.connections.insert(name, Some(self.next_id)),
            next_id: (self.next_id + 1) as usize,
        }
    }

    /// As many identifiers have been handed out as connections are open, and
    /// each open connection has one of them.
    pub open spec fn consistent(self) -> bool {
        &&& self.connections.dom().finite()
        &&& self.next_id == open_names(self.connections).len()
        &&& forall|name: Seq<char>| #[trigger]
            self.connections.contains_key(name) ==> match self.connections[name] {
                Some(id) => id < self.next_id,
                None => true,
            }
    }
}

impl View for DemonScheme {
    type V = DemonSchemeView;

    closed spec fn view(&self) -> DemonSchemeView {
        DemonSchemeView { connections: self.connections@, next_id: self.next_id }
    }
}

impl DemonScheme {
    #[verifier::type_invariant]
    spec fn inv(&self) -> bool {
        self@.consistent()
    }

    /// A provider with the given names registered and no connection open.
    pub fn new(names: Vec<String>) -> (scheme: DemonScheme)
        ensures
            scheme@ == DemonSchemeView::registered(names.deep_view()),
            scheme@.consistent(),
    {
        let mut connections: StringHashMap<Option<usize>> = StringHashMap::new();
        let ghost all = names.deep_view();
        for name in iter: names
            invariant
                iter.seq() == names@,
                all == names.deep_view(),
                connections@.dom().finite(),
                forall|known: Seq<char>|
                    connections@.contains_key(known) <==> all.take(iter.index()).contains(known),
                forall|known: Seq<char>| #[trigger]
                    connections@.contains_key(known) ==> connections@[known] is None,
        {
            let ghost at = iter.index();
            let ghost before = connections@;
            assert(name@ == all[at]);
            connections.insert(name, None);
            proof {
                let seen = all.take(at);
                let now = all.take(at + 1);
                assert forall|known: Seq<char>| connections@.contains_key(known) <==> now.contains(known) by {
                    if now.contains(known) {
                        let k = choose|k: int| 0 <= k < now.len() && now[k] == known;
                        if k < at {
                            assert(seen[k] == known);
                        }
                    }
                    if before.contains_key(known) {
                        let k = choose|k: int| 0 <= k < seen.len() && seen[k] == known;
                        assert(now[k] == known);
                    }
                    if known == all[at] {
                        assert(now[at] == known);
                    }
                }
            }
        }
        assert(all.take(all.len() as int) =~= all);
        assert(open_names(connections@) =~= Set::empty());
        assert(connections@ =~= DemonSchemeView::registered(all).connections);
        DemonScheme { connections, next_id: 0 }
    }

    /// Opens the connection `path`. A registered name whose connection is not
    /// open gets the next identifier; any other request is refused as busy.
    /// Flags, user and group play no part.
    pub fn open(&mut self, path: &str, flags: usize, uid: u32, gid: u32) -> (r: Result<usize, SchemeError>)
        ensures
            final(self)@.consistent(),
            match r {
                Ok(id) => old(self)@.free(path@) && id == old(self)@.next_id && final(self)@ == old(
                    self,
                )@.opened(path@),
                Err(err) => !old(self)@.free(path@) && err == SchemeError::Busy && final(self)@ == old(
                    self,
                )@,
            },
    {
        proof {
            use_type_invariant(&*self);
        }
        let free = match self.connections.get(path) {
            Some(None) => true,
            _ => false,
        };
        if !free {
            return Err(SchemeError::Busy);
        }
        let ghost before = self.connections@;
        let registered = self.connections.len();
        proof {
            vstd::hash_map::axiom_string_hash_map_spec_len(&self.connections);
            assert(registered == before.dom().len());
            let others = before.dom().remove(path@);
            assert(open_names(before).subset_of(others));
            lemma_len_subset(open_names(before), others);
            assert(open_names(before.insert(path@, Some(self.next_id))) =~= open_names(before).insert(
                path@,
            ));
        }
        let id = self.next_id;
        let none: StringHashMap<Option<usize>> = StringHashMap::new();
        assert(open_names(none@) =~= Set::empty());
        let mut taken = DemonScheme { connections: none, next_id: 0 };
        std::mem::swap(self, &mut taken);
        let DemonScheme { connections: mut connections, next_id: _ } = taken;
        connections.insert(path.to_owned(), Some(id));
        *self = DemonScheme { connections, next_id: id + 1 };
        Ok(id)
    }

    /// Reading fails for every identifier: no connection carries data.
    pub fn read(&mut self, id: usize, buf: &mut [u8]) -> (r: Result<usize, SchemeError>)
        ensures
            r == Err::<usize, SchemeError>(SchemeError::BadDescriptor),
            final(self)@ == old(self)@,
            final(buf)@ == old(buf)@,
    {
        Err(SchemeError::BadDescriptor)
    }

    /// Writing fails for every identifier: no connection carries data.
    pub fn write(&mut self, id: usize, buf: &[u8]) -> (r: Result<usize, SchemeError>)
        ensures
            r == Err::<usize, SchemeError>(SchemeError::BadDescriptor),
            final(self)@ == old(self)@,
    {
        Err(SchemeError::BadDescriptor)
    }

    /// Closing fails for every identifier, so a connection that was opened
    /// stays open.
    pub fn close(&mut self, id: usize) -> (r: Result<usize, SchemeError>)
        ensures
            r == Err::<usize, SchemeError>(SchemeError::BadDescriptor),
            final(self)@ == old(self)@,
    {
        Err(SchemeError::BadDescriptor)
    }
}

} // verus!
