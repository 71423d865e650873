//! A handle-based subscription registry.
//!
//! Each registration stores an (event name, callback) pair under a freshly
//! minted unique handle.  Removal by handle is exactly-once and
//! order-independent: removing an unknown or already-removed handle is a
//! safe no-op, and once `unregister` returns, the handle can never be
//! looked up again.

use vstd::prelude::*;

verus! {

/// Model of one registry entry: its handle, event name, and whether it was
/// registered for a single invocation.
pub struct RegEntryV {
    pub handle: u64,
    pub event: Seq<char>,
    pub once: bool,
}

/// One registry entry, owning its callback.
pub struct RegEntry<F> {
    pub handle: u64,
    pub event: String,
    pub callback: F,
    pub once: bool,
}

/// Does the registry hold an entry under `h`?
pub open spec fn has_handle(s: Seq<RegEntryV>, h: u64) -> bool {
    exists|i: int| 0 <= i < s.len() && #[trigger] s[i].handle == h
}

/// All handles are distinct.
pub open spec fn unique_handles(s: Seq<RegEntryV>) -> bool {
    forall|i: int, j: int| 0 <= i < j < s.len() ==> #[trigger] s[i].handle != #[trigger] s[j].handle
}

/// The registry with every entry under `h` removed.
pub open spec fn remove_handle_s(s: Seq<RegEntryV>, h: u64) -> Seq<RegEntryV>
    decreases s.len(),
{
    if s.len() == 0 {
        Seq::empty()
    } else if s.last().handle == h {
        remove_handle_s(s.drop_last(), h)
    } else {
        remove_handle_s(s.drop_last(), h) + seq![s.last()]
    }
}

/// Removing a handle removes exactly the entries under it: the handle is
/// gone, every surviving entry stood in the registry before, and handle
/// uniqueness is preserved.
pub proof fn lemma_remove_handle(s: Seq<RegEntryV>, h: u64)
    ensures
        !has_handle(remove_handle_s(s, h), h),
        forall|i: int|
            0 <= i < remove_handle_s(s, h).len() ==> s.contains(
                #[trigger] remove_handle_s(s, h)[i],
            ) && remove_handle_s(s, h)[i].handle != h,
        unique_handles(s) ==> unique_handles(remove_handle_s(s, h)),
        unique_handles(s) && !has_handle(s, h) ==> remove_handle_s(s, h) == s,
    decreases s.len(),
{
    let r = remove_handle_s(s, h);
    if s.len() == 0 {
        assert(r =~= s);
    } else {
        let pre = s.drop_last();
        assert(forall|i: int| 0 <= i < pre.len() ==> #[trigger] pre[i] == s[i]);
        assert(forall|e: RegEntryV| pre.contains(e) ==> s.contains(e));
        lemma_remove_handle(pre, h);
        let rp = remove_handle_s(pre, h);
        if unique_handles(s) {
            assert(unique_handles(pre));
        }
        if s.last().handle == h {
            assert(forall|i: int|
                0 <= i < r.len() ==> s.contains(#[trigger] r[i]) && r[i].handle != h);
        } else {
            assert(r == rp + seq![s.last()]);
            assert(s.contains(s.last())) by {
                assert(s[s.len() - 1] == s.last());
            }
            assert(forall|i: int|
                0 <= i < r.len() ==> s.contains(#[trigger] r[i]) && r[i].handle != h) by {
                assert(forall|i: int| 0 <= i < rp.len() ==> #[trigger] r[i] == rp[i]);
                assert(r[r.len() - 1] == s.last());
            }
            if unique_handles(s) {
                assert forall|i: int, j: int| 0 <= i < j < r.len() implies #[trigger] r[i].handle
                    != #[trigger] r[j].handle by {
                    if j == r.len() - 1 {
                        assert(s.contains(r[i]));
                        let w = choose|w: int| 0 <= w < s.len() && s[w] == r[i];
                        if r[i].handle == s.last().handle {
                            assert(s[w].handle == s[s.len() - 1].handle);
                            assert(r[i] == s.last());
                            assert(rp.contains(r[i]));
                            let v = choose|v: int| 0 <= v < rp.len() && rp[v] == r[i];
                            assert(pre.contains(rp[v]));
                            let u = choose|u: int| 0 <= u < pre.len() && pre[u] == rp[v];
                            assert(s[u].handle == s[s.len() - 1].handle);
                        }
                    } else {
                        assert(r[i] == rp[i] && r[j] == rp[j]);
                    }
                }
            }
        }
        if unique_handles(s) && !has_handle(s, h) {
            assert(!has_handle(pre, h)) by {
                if has_handle(pre, h) {
                    let w = choose|w: int| 0 <= w < pre.len() && #[trigger] pre[w].handle == h;
                    assert(s[w].handle == h);
                }
            }
            assert(s.last().handle != h) by {
                assert(s[s.len() - 1] == s.last());
            }
            assert(r =~= s);
        }
    }
}

/// Sequential removal of a list of handles, in the given order.
pub open spec fn remove_all_s(s: Seq<RegEntryV>, hs: Seq<u64>) -> Seq<RegEntryV>
    decreases hs.len(),
{
    if hs.len() == 0 {
        s
    } else {
        remove_all_s(remove_handle_s(s, hs[0]), hs.drop_first())
    }
}

/// Unregistering every registered handle, in any order and with any
/// repetitions or strangers mixed in, leaves the registry empty.
pub proof fn lemma_unregister_all(s: Seq<RegEntryV>, hs: Seq<u64>)
    requires
        forall|i: int| 0 <= i < s.len() ==> hs.contains(#[trigger] s[i].handle),
    ensures
        remove_all_s(s, hs).len() == 0,
    decreases hs.len(),
{
    if hs.len() == 0 {
        if s.len() > 0 {
            assert(hs.contains(s[0].handle));
        }
    } else {
        let h0 = hs[0];
        let s1 = remove_handle_s(s, h0);
        lemma_remove_handle(s, h0);
        assert forall|i: int| 0 <= i < s1.len() implies hs.drop_first().contains(
            #[trigger] s1[i].handle,
        ) by {
            assert(s.contains(s1[i]));
            let w = choose|w: int| 0 <= w < s.len() && s[w] == s1[i];
            assert(hs.contains(s[w].handle));
            let v = choose|v: int| 0 <= v < hs.len() && hs[v] == s1[i].handle;
            assert(s1[i].handle != h0);
            assert(v >= 1);
            assert(hs.drop_first()[v - 1] == hs[v]);
        }
        lemma_unregister_all(s1, hs.drop_first());
    }
}

/// A handle-based subscription registry over callbacks of type `F`.
pub struct SubscriptionRegistry<F> {
    pub entries: Vec<RegEntry<F>>,
    pub next_handle: u64,
}

impl<F> View for SubscriptionRegistry<F> {
    type V = Seq<RegEntryV>;

    open spec fn view(&self) -> Seq<RegEntryV> {
        Seq::new(
            self.entries@.len(),
            |i: int|
                RegEntryV {
                    handle: self.entries@[i].handle,
                    event: self.entries@[i].event@,
                    once: self.entries@[i].once,
                },
        )
    }
}

impl<F> SubscriptionRegistry<F> {
    /// Handles are unique and every handle is below the mint counter.
    pub open spec fn wf(&self) -> bool {
        unique_handles(self@) && forall|i: int|
            0 <= i < self@.len() ==> #[trigger] self@[i].handle < self.next_handle
    }

    /// A handle can still be minted.
    pub open spec fn can_register(&self) -> bool {
        self.next_handle < u64::MAX
    }

    /// The empty registry.
    pub fn new() -> (r: SubscriptionRegistry<F>)
        ensures
            r@ == Seq::<RegEntryV>::empty(),
            r.wf(),
            r.can_register(),
    {
        let r = SubscriptionRegistry { entries: Vec::new(), next_handle: 0 };
        proof {
            assert(r@ =~= Seq::<RegEntryV>::empty());
        }
        r
    }

    /// The number of live registrations.
    pub fn len(&self) -> (r: usize)
        ensures
            r == self@.len(),
    {
        self.entries.len()
    }

    /// Store `callback` under `event` and hand back a freshly minted
    /// handle, never seen before from this registry.
    pub fn register(&mut self, event: String, callback: F) -> (h: u64)
        requires
            old(self).wf(),
            old(self).can_register(),
        ensures
            final(self)@ == old(self)@.push(
                (RegEntryV { handle: h, event: event@, once: false }),
            ),
            !has_handle(old(self)@, h),
            h == old(self).next_handle,
            final(self).next_handle == old(self).next_handle + 1,
            final(self).wf(),
    {
        self.register_inner(event, callback, false)
    }

    /// Like `register`, for a callback meant to be invoked at most once;
    /// the owning dispatcher removes it by its handle after the first
    /// invocation.
    pub fn register_once(&mut self, event: String, callback: F) -> (h: u64)
        requires
            old(self).wf(),
            old(self).can_register(),
        ensures
            final(self)@ == old(self)@.push((RegEntryV { handle: h, event: event@, once: true })),
            !has_handle(old(self)@, h),
            h == old(self).next_handle,
            final(self).next_handle == old(self).next_handle + 1,
            final(self).wf(),
    {
        self.register_inner(event, callback, true)
    }

    fn register_inner(&mut self, event: String, callback: F, once: bool) -> (h: u64)
        requires
            old(self).wf(),
            old(self).can_register(),
        ensures
            final(self)@ == old(self)@.push((RegEntryV { handle: h, event: event@, once: once })),
            !has_handle(old(self)@, h),
            h == old(self).next_handle,
            final(self).next_handle == old(self).next_handle + 1,
            final(self).wf(),
    {
        let ghost pre = self@;
        let h = self.next_handle;
        self.next_handle = self.next_handle + 1;
        self.entries.push(RegEntry { handle: h, event, callback, once });
        proof {
            assert(self@ =~= pre.push((RegEntryV { handle: h, event: self.entries@[pre.len() as int].event@, once: once })));
            if has_handle(pre, h) {
                let w = choose|w: int| 0 <= w < pre.len() && #[trigger] pre[w].handle == h;
            }
            assert(forall|i: int| 0 <= i < pre.len() ==> #[trigger] self@[i] == pre[i]);
        }
        h
    }

    /// Remove the registration under `h`, if any.  Removal is idempotent:
    /// an unknown or already-removed handle is a no-op, and afterwards the
    /// handle can never be observed again.
    pub fn unregister(&mut self, h: u64)
        requires
            old(self).wf(),
        ensures
            final(self)@ == remove_handle_s(old(self)@, h),
            !has_handle(final(self)@, h),
            final(self).wf(),
            final(self).can_register() == old(self).can_register(),
    {
        let ghost pre = self@;
        let n = self.entries.len();
        let ghost total = n as int;
        let ghost nh = self.next_handle;
        let mut out: Vec<RegEntry<F>> = Vec::new();
        let mut i: usize = 0;
        proof {
            assert(pre.subrange(0, 0) =~= Seq::<RegEntryV>::empty());
        }
        while self.entries.len() > 0
            invariant
                i + self.entries@.len() == total,
                total <= usize::MAX as int,
                pre.len() == total,
                self.next_handle == nh,
                forall|j: int|
                    0 <= j < self.entries@.len() ==> pre[i + j] == (RegEntryV {
                        handle: #[trigger] self.entries@[j].handle,
                        event: self.entries@[j].event@,
                        once: self.entries@[j].once,
                    }),
                Seq::new(
                    out@.len(),
                    |k: int|
                        RegEntryV {
                            handle: out@[k].handle,
                            event: out@[k].event@,
                            once: out@[k].once,
                        },
                ) =~= remove_handle_s(pre.subrange(0, i as int), h),
            decreases self.entries@.len(),
        {
            proof {
                assert(pre.subrange(0, i as int + 1).drop_last() =~= pre.subrange(0, i as int));
                assert(pre.subrange(0, i as int + 1).last() == pre[i as int]);
                assert(pre[i as int] == (RegEntryV {
                    handle: self.entries@[0].handle,
                    event: self.entries@[0].event@,
                    once: self.entries@[0].once,
                }));
            }
            let e = self.entries.remove(0);
            if e.handle != h {
                out.push(e);
            }
            proof {
                assert(Seq::new(
                    out@.len(),
                    |k: int|
                        RegEntryV {
                            handle: out@[k].handle,
                            event: out@[k].event@,
                            once: out@[k].once,
                        },
                ) =~= remove_handle_s(pre.subrange(0, i as int + 1), h));
            }
            proof {
                assert(i < total);
            }
            i += 1;
        }
        proof {
            assert(pre.subrange(0, total as int) =~= pre);
        }
        self.entries = out;
        proof {
            assert(self@ =~= remove_handle_s(pre, h));
            lemma_remove_handle(pre, h);
        }
    }

    /// Is a registration live under `h`?
    pub fn contains(&self, h: u64) -> (r: bool)
        ensures
            r == has_handle(self@, h),
    {
        let n = self.entries.len();
        let mut i: usize = 0;
        while i < n
            invariant
                n == self.entries.len(),
                i <= n,
                forall|j: int| 0 <= j < i ==> #[trigger] self@[j].handle != h,
            decreases n - i,
        {
            if self.entries[i].handle == h {
                proof {
                    assert(self@[i as int].handle == h);
                }
                return true;
            }
            i += 1;
        }
        false
    }

    /// The callback registered under `h`, if any: exactly the one stored
    /// when `h` was minted.
    pub fn get(&self, h: u64) -> (r: Option<&F>)
        ensures
            r is Some <==> has_handle(self@, h),
            match r {
                Some(cb) => exists|i: int|
                    0 <= i < self.entries@.len() && #[trigger] self.entries@[i].handle == h
                        && *cb == self.entries@[i].callback,
                None => !has_handle(self@, h),
            },
    {
        let n = self.entries.len();
        let mut i: usize = 0;
        while i < n
            invariant
                n == self.entries.len(),
                i <= n,
                forall|j: int| 0 <= j < i ==> #[trigger] self@[j].handle != h,
            decreases n - i,
        {
            if self.entries[i].handle == h {
                proof {
                    assert(self@[i as int].handle == h);
                }
                return Some(&self.entries[i].callback);
            }
            i += 1;
        }
        None
    }
}

} // verus!
