use vstd::prelude::*;

verus! {

/// The address bound to `name` by the first entry that names it.
pub open spec fn find_host(s: Seq<(String, u32)>, name: Seq<char>) -> Option<u32>
    decreases s.len(),
{
    if s.len() == 0 {
        None
    } else if s[0].0@ == name {
        Some(s[0].1)
    } else {
        find_host(s.drop_first(), name)
    }
}

proof fn lemma_find_update(s: Seq<(String, u32)>, j: int, e: (String, u32), name: Seq<char>)
    requires
        0 <= j < s.len(),
        s[j].0@ == e.0@,
        forall|i: int| 0 <= i < j ==> (#[trigger] s[i]).0@ != e.0@,
    ensures
        find_host(s.update(j, e), name) == if name == e.0@ {
            Some(e.1)
        } else {
            find_host(s, name)
        },
    decreases s.len(),
{
    if j == 0 {
        assert(s.update(j, e).drop_first() =~= s.drop_first());
    } else {
        assert(s.update(j, e)[0] == s[0]);
        assert(s.update(j, e).drop_first() =~= s.drop_first().update(j - 1, e));
        assert forall|i: int| 0 <= i < j - 1 implies (#[trigger] s.drop_first()[i]).0@ != e.0@ by {
            assert(s.drop_first()[i] == s[i + 1]);
        }
        lemma_find_update(s.drop_first(), j - 1, e, name);
    }
}

proof fn lemma_find_push(s: Seq<(String, u32)>, e: (String, u32), name: Seq<char>)
    requires
        forall|i: int| 0 <= i < s.len() ==> (#[trigger] s[i]).0@ != e.0@,
    ensures
        find_host(s.push(e), name) == if find_host(s, name) is Some {
            find_host(s, name)
        } else if name == e.0@ {
            Some(e.1)
        } else {
            None
        },
        find_host(s, e.0@) is None,
    decreases s.len(),
{
    if s.len() > 0 {
        assert(s.push(e)[0] == s[0]);
        assert(s.push(e).drop_first() =~= s.drop_first().push(e));
        assert forall|i: int| 0 <= i < s.len() - 1 implies (#[trigger] s.drop_first()[i]).0@
            != e.0@ by {
            assert(s.drop_first()[i] == s[i + 1]);
        }
        lemma_find_push(s.drop_first(), e, name);
    } else {
        assert(s.push(e)[0] == e);
        assert(s.push(e).drop_first() =~= Seq::<(String, u32)>::empty());
        assert(find_host(Seq::<(String, u32)>::empty(), name) is None);
    }
}

/// Names bound to IPv4 addresses; a later binding of a name replaces the
/// earlier one.
pub struct HostTable {
    entries: Vec<(String, u32)>,
}

impl HostTable {
    /// The address `name` is bound to.
    pub closed spec fn get(&self, name: Seq<char>) -> Option<u32> {
        find_host(self.entries@, name)
    }

    pub fn new() -> (r: HostTable)
        ensures
            forall|n: Seq<char>| r.get(n) is None,
    {
        HostTable { entries: Vec::new() }
    }

    /// Looks `name` up by exact match.
    pub fn lookup(&self, name: &String) -> (r: Option<u32>)
        ensures
            r == self.get(name@),
    {
        let mut i: usize = 0;
        assert(self.entries@.skip(0) =~= self.entries@);
        while i < self.entries.len()
            invariant
                0 <= i <= self.entries@.len(),
                find_host(self.entries@, name@) == find_host(self.entries@.skip(i as int), name@),
            decreases self.entries@.len() - i,
        {
            let ghost rest = self.entries@.skip(i as int);
            assert(rest.drop_first() =~= self.entries@.skip(i + 1));
            if self.entries[i].0 == *name {
                return Some(self.entries[i].1);
            }
            i = i + 1;
        }
        None
    }

    /// Binds `name` to `ip`, replacing any earlier binding of it.
    pub fn register(&mut self, name: String, ip: u32)
        ensures
            forall|n: Seq<char>|
                #[trigger] final(self).get(n) == if n == name@ {
                    Some(ip)
                } else {
                    old(self).get(n)
                },
    {
        let mut i: usize = 0;
        while i < self.entries.len()
            invariant
                0 <= i <= self.entries@.len(),
                *self == *old(self),
                forall|k: int| 0 <= k < i ==> (#[trigger] self.entries@[k]).0@ != name@,
            decreases self.entries@.len() - i,
        {
            if self.entries[i].0 == name {
                let ghost e = (name, ip);
                proof {
                    assert forall|n: Seq<char>| #[trigger]
                        find_host(self.entries@.update(i as int, e), n) == if n == name@ {
                            Some(ip)
                        } else {
                            find_host(self.entries@, n)
                        } by {
                        lemma_find_update(self.entries@, i as int, e, n);
                    }
                }
                self.entries.set(i, (name, ip));
                return;
            }
            i = i + 1;
        }
        let ghost e = (name, ip);
        proof {
            assert forall|n: Seq<char>| #[trigger]
                find_host(self.entries@.push(e), n) == if n == name@ {
                    Some(ip)
                } else {
                    find_host(self.entries@, n)
                } by {
                lemma_find_push(self.entries@, e, n);
            }
        }
        self.entries.push((name, ip));
    }
}

} // verus!
