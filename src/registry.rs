use vstd::prelude::*;

verus! {

/// One bound, listening socket: its address and the raw OS handle that
/// denotes it.
#[derive(Clone, Debug)]
pub struct ListenerHandle {
    pub address: String,
    pub handle: i32,
}

impl View for ListenerHandle {
    type V = (Seq<char>, i32);

    open spec fn view(&self) -> (Seq<char>, i32) {
        (self.address@, self.handle)
    }
}

/// The entries of a list of listeners, as (address, handle) pairs.
pub open spec fn entries_view(v: Seq<ListenerHandle>) -> Seq<(Seq<char>, i32)> {
    v.map_values(|e: ListenerHandle| e@)
}

/// No address occurs twice.
pub open spec fn unique_addresses(s: Seq<(Seq<char>, i32)>) -> bool {
    forall|i: int, j: int| 0 <= i < s.len() && 0 <= j < s.len() && i != j ==> s[i].0 != s[j].0
}

pub open spec fn has_address(s: Seq<(Seq<char>, i32)>, a: Seq<char>) -> bool {
    exists|i: int| 0 <= i < s.len() && s[i].0 == a
}

/// Adding an entry: an existing entry for the address takes the new handle
/// where it stands; a new address goes to the end.
pub open spec fn add_spec(s: Seq<(Seq<char>, i32)>, a: Seq<char>, h: i32) -> Seq<(Seq<char>, i32)> {
    if has_address(s, a) {
        s.map_values(|e: (Seq<char>, i32)| if e.0 == a { (a, h) } else { e })
    } else {
        s.push((a, h))
    }
}

/// The entries after adding each pair of `m` in order.
pub open spec fn add_all(s: Seq<(Seq<char>, i32)>, m: Seq<(Seq<char>, i32)>) -> Seq<(Seq<char>, i32)>
    decreases m.len(),
{
    if m.len() == 0 {
        s
    } else {
        add_spec(add_all(s, m.drop_last()), m.last().0, m.last().1)
    }
}

/// The handle recorded for an address, if any.
pub open spec fn lookup(s: Seq<(Seq<char>, i32)>, a: Seq<char>) -> Option<i32> {
    if has_address(s, a) {
        Some(s[choose|i: int| 0 <= i < s.len() && s[i].0 == a].1)
    } else {
        None
    }
}

/// The table of listening sockets of one generation, keyed by address, in
/// the order in which addresses were first added.
pub struct ListenerRegistry {
    entries: Vec<ListenerHandle>,
}

impl View for ListenerRegistry {
    type V = Seq<(Seq<char>, i32)>;

    closed spec fn view(&self) -> Seq<(Seq<char>, i32)> {
        entries_view(self.entries@)
    }
}

impl ListenerRegistry {
    #[verifier::type_invariant]
    spec fn inv(self) -> bool {
        unique_addresses(entries_view(self.entries@))
    }

    pub fn new() -> (r: Self)
        ensures
            r@ == Seq::<(Seq<char>, i32)>::empty(),
    {
        let r = ListenerRegistry { entries: Vec::new() };
        assert(r@ =~= Seq::<(Seq<char>, i32)>::empty());
        r
    }

    /// The position of the entry for `address`, if there is one.
    fn position(&self, address: &String) -> (r: Option<usize>)
        ensures
            match r {
                Some(i) => i < self@.len() && self@[i as int].0 == address@,
                None => !has_address(self@, address@),
            },
    {
        let mut i: usize = 0;
        while i < self.entries.len()
            invariant
                i <= self.entries@.len(),
                self@ == entries_view(self.entries@),
                forall|k: int| 0 <= k < i ==> self@[k].0 != address@,
            decreases self.entries@.len() - i,
        {
            if self.entries[i].address == *address {
                return Some(i);
            }
            i = i + 1;
        }
        None
    }

    /// Records `handle` for `address`; an earlier entry for the same
    /// address is overwritten.
    pub fn add(&mut self, address: String, handle: i32)
        ensures
            final(self)@ == add_spec(old(self)@, address@, handle),
    {
        proof { use_type_invariant(&*self); }
        let pos = self.position(&address);
        let ghost s = self@;
        let ghost a = address@;
        let mut entries: Vec<ListenerHandle> = Vec::new();
        std::mem::swap(&mut entries, &mut self.entries);
        match pos {
            Some(i) => {
                entries.set(i, ListenerHandle { address, handle });
                proof {
                    let t = entries_view(entries@);
                    assert forall|k: int| 0 <= k < s.len() implies t[k] == add_spec(s, a, handle)[k] by {
                        if k != i as int {
                            assert(s[k].0 != s[i as int].0);
                        }
                    }
                    assert(t =~= add_spec(s, a, handle));
                }
            },
            None => {
                entries.push(ListenerHandle { address, handle });
                proof {
                    assert(entries_view(entries@) =~= s.push((a, handle)));
                }
            },
        }
        self.entries = entries;
    }

    /// The handle recorded for `address`, if any.
    pub fn get(&self, address: &String) -> (r: Option<i32>)
        ensures
            r == lookup(self@, address@),
    {
        proof { use_type_invariant(self); }
        match self.position(address) {
            Some(i) => {
                proof {
                    let s = self@;
                    let j = choose|j: int| 0 <= j < s.len() && s[j].0 == address@;
                    assert(j == i as int);
                }
                Some(self.entries[i].handle)
            },
            None => None,
        }
    }

    /// The number of listeners.
    pub fn len(&self) -> (r: usize)
        ensures
            r == self@.len(),
    {
        self.entries.len()
    }

    /// A snapshot of every entry, in order.
    pub fn entries(&self) -> (r: Vec<ListenerHandle>)
        ensures
            entries_view(r@) == self@,
            unique_addresses(self@),
    {
        proof { use_type_invariant(self); }
        let mut out: Vec<ListenerHandle> = Vec::new();
        let mut i: usize = 0;
        while i < self.entries.len()
            invariant
                i <= self.entries@.len(),
                self@ == entries_view(self.entries@),
                entries_view(out@) =~= self@.subrange(0, i as int),
            decreases self.entries@.len() - i,
        {
            let e = ListenerHandle {
                address: self.entries[i].address.clone(),
                handle: self.entries[i].handle,
            };
            assert(e@ == self@[i as int]);
            let ghost prev = out@;
            out.push(e);
            proof {
                assert(entries_view(out@) =~= entries_view(prev).push(e@));
            }
            i = i + 1;
        }
        assert(self@.subrange(0, self@.len() as int) =~= self@);
        out
    }
}

/// Adding pairs with distinct addresses, one after another, to an empty
/// registry yields exactly those pairs: none lost, none doubled.
pub proof fn lemma_distinct_adds(pairs: Seq<(Seq<char>, i32)>)
    requires
        unique_addresses(pairs),
    ensures
        add_all(Seq::empty(), pairs) == pairs,
    decreases pairs.len(),
{
    if pairs.len() > 0 {
        let p = pairs.drop_last();
        assert(unique_addresses(p)) by {
            assert forall|i: int, j: int| 0 <= i < p.len() && 0 <= j < p.len() && i != j implies p[i].0 != p[j].0 by {
                assert(p[i] == pairs[i] && p[j] == pairs[j]);
            }
        }
        lemma_distinct_adds(p);
        let last = pairs.last();
        assert(!has_address(p, last.0)) by {
            if has_address(p, last.0) {
                let i = choose|i: int| 0 <= i < p.len() && p[i].0 == last.0;
                assert(pairs[i].0 == pairs[pairs.len() - 1].0);
            }
        }
        assert(p.push(last) =~= pairs);
    }
}

} // verus!
