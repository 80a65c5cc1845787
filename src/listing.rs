use vstd::prelude::*;
use crate::model::RepoDescriptor;
use crate::text::{eq_ignore_ascii_case, folded};

verus! {

/// Identity of a repository within one listing: namespace path and name.
pub open spec fn key_of(d: RepoDescriptor) -> (Seq<Seq<char>>, Seq<char>) {
    (d.path_view(), d.name@)
}

/// The identity with ASCII letters lower-cased, under which two mirrors would
/// share a directory on a case-insensitive file system.
pub open spec fn folded_key(d: RepoDescriptor) -> (Seq<Seq<u32>>, Seq<u32>) {
    (d.path_view().map_values(|s: Seq<char>| folded(s)), folded(d.name@))
}

/// No two entries share an identity.
pub open spec fn keys_distinct(s: Seq<RepoDescriptor>) -> bool {
    forall|i: int, j: int| 0 <= i < j < s.len() ==> key_of(#[trigger] s[i]) != key_of(#[trigger] s[j])
}

/// Entry `i` shares its folded identity with an earlier entry.
pub open spec fn collides_earlier(s: Seq<RepoDescriptor>, i: int) -> bool {
    exists|j: int| 0 <= j < i && #[trigger] folded_key(s[j]) == folded_key(s[i])
}

/// Some entry has the identity of `d`.
pub open spec fn has_key(s: Seq<RepoDescriptor>, d: RepoDescriptor) -> bool {
    exists|j: int| 0 <= j < s.len() && key_of(#[trigger] s[j]) == key_of(d)
}

pub fn same_key(a: &RepoDescriptor, b: &RepoDescriptor) -> (r: bool)
    ensures
        r == (key_of(*a) == key_of(*b)),
{
    if a.namespace_path.len() != b.namespace_path.len() {
        return false;
    }
    let mut i: usize = 0;
    while i < a.namespace_path.len()
        invariant
            a.namespace_path@.len() == b.namespace_path@.len(),
            i <= a.namespace_path@.len(),
            forall|k: int| 0 <= k < i ==> #[trigger] a.path_view()[k] == b.path_view()[k],
        decreases a.namespace_path@.len() - i,
    {
        if !(a.namespace_path[i] == b.namespace_path[i]) {
            assert(a.path_view()[i as int] != b.path_view()[i as int]);
            return false;
        }
        i = i + 1;
    }
    assert(a.path_view() =~= b.path_view());
    a.name == b.name
}

pub fn same_folded_key(a: &RepoDescriptor, b: &RepoDescriptor) -> (r: bool)
    ensures
        r == (folded_key(*a) == folded_key(*b)),
{
    let ghost fa = a.path_view().map_values(|s: Seq<char>| folded(s));
    let ghost fb = b.path_view().map_values(|s: Seq<char>| folded(s));
    if a.namespace_path.len() != b.namespace_path.len() {
        assert(fa.len() != fb.len());
        return false;
    }
    let mut i: usize = 0;
    while i < a.namespace_path.len()
        invariant
            a.namespace_path@.len() == b.namespace_path@.len(),
            i <= a.namespace_path@.len(),
            fa == a.path_view().map_values(|s: Seq<char>| folded(s)),
            fb == b.path_view().map_values(|s: Seq<char>| folded(s)),
            forall|k: int| 0 <= k < i ==> #[trigger] fa[k] == fb[k],
        decreases a.namespace_path@.len() - i,
    {
        if !eq_ignore_ascii_case(a.namespace_path[i].as_str(), b.namespace_path[i].as_str()) {
            assert(fa[i as int] != fb[i as int]);
            return false;
        }
        i = i + 1;
    }
    assert(fa =~= fb);
    eq_ignore_ascii_case(a.name.as_str(), b.name.as_str())
}

/// For each entry, whether an earlier one shares its folded identity: the
/// later entry of such a pair would overwrite the other's mirror.
pub fn collision_flags(descs: &Vec<RepoDescriptor>) -> (r: Vec<bool>)
    ensures
        r@.len() == descs@.len(),
        forall|i: int| 0 <= i < descs@.len() ==> #[trigger] r@[i] == collides_earlier(descs@, i),
{
    let mut flags: Vec<bool> = Vec::new();
    let mut i: usize = 0;
    while i < descs.len()
        invariant
            i <= descs@.len(),
            flags@.len() == i,
            forall|k: int| 0 <= k < i ==> #[trigger] flags@[k] == collides_earlier(descs@, k),
        decreases descs@.len() - i,
    {
        let mut found = false;
        let mut j: usize = 0;
        while j < i && !found
            invariant
                i < descs@.len(),
                j <= i,
                found ==> collides_earlier(descs@, i as int),
                !found ==> forall|k: int| 0 <= k < j ==> #[trigger] folded_key(descs@[k]) != folded_key(descs@[i as int]),
            decreases i - j,
        {
            if same_folded_key(&descs[j], &descs[i]) {
                found = true;
            }
            j = j + 1;
        }
        flags.push(found);
        i = i + 1;
    }
    flags
}

/// Adds the entries of `more` whose identity is not there yet, in order: one
/// listing made from several (a group and its subgroups, or several pages).
pub fn merge_listing(acc: &mut Vec<RepoDescriptor>, more: Vec<RepoDescriptor>)
    ensures
        final(acc)@.len() >= old(acc)@.len(),
        final(acc)@.take(old(acc)@.len() as int) == old(acc)@,
        forall|i: int| 0 <= i < more@.len() ==> has_key(final(acc)@, #[trigger] more@[i]),
        forall|i: int|
            old(acc)@.len() <= i < final(acc)@.len() ==> more@.contains(#[trigger] final(acc)@[i]),
        keys_distinct(old(acc)@) ==> keys_distinct(final(acc)@),
{
    let ghost start = acc@;
    let ghost all = more@;
    let total = more.len();
    let mut rest = more;
    let mut done: usize = 0;
    while rest.len() > 0
        invariant
            all.len() == total,
            all.len() == done + rest@.len(),
            rest@ == all.skip(done as int),
            acc@.take(start.len() as int) == start,
            acc@.len() >= start.len(),
            forall|i: int| 0 <= i < done ==> has_key(acc@, #[trigger] all[i]),
            forall|i: int| start.len() <= i < acc@.len() ==> all.contains(#[trigger] acc@[i]),
            keys_distinct(start) ==> keys_distinct(acc@),
        decreases rest@.len(),
    {
        let d = rest.remove(0);
        assert(d == all[done as int]);
        let mut present = false;
        let mut j: usize = 0;
        while j < acc.len() && !present
            invariant
                j <= acc@.len(),
                present ==> has_key(acc@, d),
                !present ==> forall|k: int| 0 <= k < j ==> key_of(#[trigger] acc@[k]) != key_of(d),
            decreases acc@.len() - j,
        {
            if same_key(&acc[j], &d) {
                present = true;
            }
            j = j + 1;
        }
        let ghost before = acc@;
        if !present {
            acc.push(d);
            assert(acc@[before.len() as int] == d);
            assert(acc@.take(start.len() as int) =~= before.take(start.len() as int));
            assert forall|i: int| 0 <= i < done + 1 implies has_key(acc@, #[trigger] all[i]) by {
                if i < done {
                    let w = choose|w: int| 0 <= w < before.len() && key_of(#[trigger] before[w]) == key_of(all[i]);
                    assert(acc@[w] == before[w]);
                }
            }
            assert(all.contains(d));
        }
        assert(rest@ =~= all.skip(done + 1));
        done = done + 1;
    }
}

/// What a listing does after receiving one page.
#[derive(Clone, Copy, PartialEq, Eq, Structural, Debug)]
pub enum PageStep {
    /// Fetch the page with this number.
    Fetch(u64),
    /// The listing is complete.
    Done,
    /// The page contradicts its own continuation: the listing fails rather
    /// than come out short.
    Malformed,
}

pub open spec fn spec_next_page(current: u64, item_count: nat, per_page: nat, next: Option<u64>) -> PageStep {
    if item_count > per_page {
        PageStep::Malformed
    } else {
        match next {
            None => PageStep::Done,
            Some(n) => if n <= current || item_count < per_page {
                PageStep::Malformed
            } else {
                PageStep::Fetch(n)
            },
        }
    }
}

/// Decides the step after page `current`, which held `item_count` entries out
/// of at most `per_page`, and named `next` as the following page, if any. A
/// continuation that does not move forward, or that follows a short page,
/// marks a truncated or malformed response.
pub fn next_page(current: u64, item_count: usize, per_page: usize, next: Option<u64>) -> (r: PageStep)
    ensures
        r == spec_next_page(current, item_count as nat, per_page as nat, next),
{
    if item_count > per_page {
        return PageStep::Malformed;
    }
    match next {
        None => PageStep::Done,
        Some(n) => {
            if n <= current || item_count < per_page {
                PageStep::Malformed
            } else {
                PageStep::Fetch(n)
            }
        },
    }
}

/// The ids of `ids` that are not in `seen`, each at its first occurrence.
pub open spec fn fresh_ids(ids: Seq<u64>, seen: Seq<u64>) -> Seq<u64>
    decreases ids.len(),
{
    if ids.len() == 0 {
        Seq::empty()
    } else {
        let rest = fresh_ids(ids.drop_last(), seen);
        let x = ids.last();
        if seen.contains(x) || ids.drop_last().contains(x) {
            rest
        } else {
            rest.push(x)
        }
    }
}

pub proof fn lemma_fresh_ids(ids: Seq<u64>, seen: Seq<u64>)
    ensures
        forall|x: u64| #[trigger] fresh_ids(ids, seen).contains(x) <==> ids.contains(x) && !seen.contains(x),
        fresh_ids(ids, seen).no_duplicates(),
    decreases ids.len(),
{
    if ids.len() > 0 {
        let init = ids.drop_last();
        let x = ids.last();
        lemma_fresh_ids(init, seen);
        let rest = fresh_ids(init, seen);
        assert(ids =~= init.push(x));
        assert forall|y: u64| #[trigger] ids.contains(y) <==> init.contains(y) || y == x by {
            if ids.contains(y) {
                let w = choose|w: int| 0 <= w < ids.len() && ids[w] == y;
                if w < init.len() {
                    assert(init[w] == y);
                }
            }
            if init.contains(y) {
                let w = choose|w: int| 0 <= w < init.len() && init[w] == y;
                assert(ids[w] == y);
            }
            if y == x {
                assert(ids[ids.len() - 1] == y);
            }
        }
        if !(seen.contains(x) || init.contains(x)) {
            let f = rest.push(x);
            assert forall|y: u64| #[trigger] f.contains(y) <==> rest.contains(y) || y == x by {
                if f.contains(y) {
                    let w = choose|w: int| 0 <= w < f.len() && f[w] == y;
                    if w < rest.len() {
                        assert(rest[w] == y);
                    }
                }
                if rest.contains(y) {
                    let w = choose|w: int| 0 <= w < rest.len() && rest[w] == y;
                    assert(f[w] == y);
                }
                if y == x {
                    assert(f[f.len() - 1] == y);
                }
            }
            assert(!rest.contains(x));
        }
    }
}

proof fn lemma_concat_no_duplicates(a: Seq<u64>, b: Seq<u64>)
    requires
        a.no_duplicates(),
        b.no_duplicates(),
        forall|x: u64| #[trigger] b.contains(x) ==> !a.contains(x),
    ensures
        (a + b).no_duplicates(),
        forall|x: u64| #[trigger] (a + b).contains(x) <==> a.contains(x) || b.contains(x),
{
    let c = a + b;
    assert forall|i: int, j: int| 0 <= i < c.len() && 0 <= j < c.len() && i != j implies c[i] != c[j] by {
        if i < a.len() && j >= a.len() {
            assert(b[j - a.len()] == c[j]);
            assert(b.contains(c[j]));
            assert(a[i] == c[i]);
        } else if j < a.len() && i >= a.len() {
            assert(b[i - a.len()] == c[i]);
            assert(b.contains(c[i]));
            assert(a[j] == c[j]);
        }
    }
    assert forall|x: u64| #[trigger] c.contains(x) <==> a.contains(x) || b.contains(x) by {
        if c.contains(x) {
            let w = choose|w: int| 0 <= w < c.len() && c[w] == x;
            if w < a.len() {
                assert(a[w] == x);
            } else {
                assert(b[w - a.len()] == x);
            }
        }
        if a.contains(x) {
            let w = choose|w: int| 0 <= w < a.len() && a[w] == x;
            assert(c[w] == x);
        }
        if b.contains(x) {
            let w = choose|w: int| 0 <= w < b.len() && b[w] == x;
            assert(c[w + a.len()] == x);
        }
    }
}

/// The groups of a recursive listing still to visit, and those already met.
pub struct GroupWalk {
    pub pending: Vec<u64>,
    pub seen: Vec<u64>,
}

impl GroupWalk {
    /// No group is met twice or queued twice, and every queued group has
    /// been met.
    pub open spec fn wf(&self) -> bool {
        &&& self.seen@.no_duplicates()
        &&& self.pending@.no_duplicates()
        &&& forall|x: u64| #[trigger] self.pending@.contains(x) ==> self.seen@.contains(x)
    }

    /// A walk that starts at the top-level group.
    pub fn new(root: u64) -> (r: GroupWalk)
        ensures
            r.wf(),
            r.pending@ == seq![root],
            r.seen@ == seq![root],
    {
        let r = GroupWalk { pending: vec![root], seen: vec![root] };
        assert(r.seen@.no_duplicates());
        assert(r.pending@.no_duplicates());
        r
    }

    /// Queues the subgroups of a visited group that have not been met
    /// before, each once, in the order given.
    pub fn add_subgroups(&mut self, ids: &Vec<u64>)
        requires
            old(self).wf(),
        ensures
            final(self).wf(),
            final(self).seen@ == old(self).seen@ + fresh_ids(ids@, old(self).seen@),
            final(self).pending@ == old(self).pending@ + fresh_ids(ids@, old(self).seen@),
    {
        let ghost seen0 = self.seen@;
        let ghost pending0 = self.pending@;
        let mut i: usize = 0;
        assert(ids@.take(0) =~= Seq::<u64>::empty());
        assert(seen0 + Seq::<u64>::empty() =~= seen0);
        assert(pending0 + Seq::<u64>::empty() =~= pending0);
        while i < ids.len()
            invariant
                i <= ids@.len(),
                self.seen@ == seen0 + fresh_ids(ids@.take(i as int), seen0),
                self.pending@ == pending0 + fresh_ids(ids@.take(i as int), seen0),
            decreases ids@.len() - i,
        {
            let id = ids[i];
            let mut met = false;
            let mut j: usize = 0;
            while j < self.seen.len() && !met
                invariant
                    j <= self.seen@.len(),
                    met ==> self.seen@.contains(id),
                    !met ==> forall|k: int| 0 <= k < j ==> #[trigger] self.seen@[k] != id,
                decreases self.seen@.len() - j,
            {
                if self.seen[j] == id {
                    met = true;
                }
                j = j + 1;
            }
            proof {
                let t = ids@.take(i as int);
                let t1 = ids@.take(i + 1);
                assert(t1.drop_last() =~= t);
                assert(t1.last() == id);
                lemma_fresh_ids(t, seen0);
                let f = fresh_ids(t, seen0);
                assert forall|x: u64| #[trigger] (seen0 + f).contains(x) <==> seen0.contains(x) || f.contains(x) by {
                    if (seen0 + f).contains(x) {
                        let w = choose|w: int| 0 <= w < (seen0 + f).len() && (seen0 + f)[w] == x;
                        if w < seen0.len() {
                            assert(seen0[w] == x);
                        } else {
                            assert(f[w - seen0.len()] == x);
                        }
                    }
                    if seen0.contains(x) {
                        let w = choose|w: int| 0 <= w < seen0.len() && seen0[w] == x;
                        assert((seen0 + f)[w] == x);
                    }
                    if f.contains(x) {
                        let w = choose|w: int| 0 <= w < f.len() && f[w] == x;
                        assert((seen0 + f)[w + seen0.len()] == x);
                    }
                }
                if !met && self.seen@.contains(id) {
                    let w = choose|w: int| 0 <= w < self.seen@.len() && self.seen@[w] == id;
                    assert(self.seen@[w] != id);
                }
                assert(met <==> self.seen@.contains(id));
                assert(met <==> seen0.contains(id) || t.contains(id));
            }
            if !met {
                self.seen.push(id);
                self.pending.push(id);
            }
            proof {
                let t = ids@.take(i as int);
                let f = fresh_ids(t, seen0);
                if !met {
                    assert(fresh_ids(ids@.take(i + 1), seen0) == f.push(id));
                    assert(self.seen@ =~= seen0 + f.push(id));
                    assert(self.pending@ =~= pending0 + f.push(id));
                } else {
                    assert(fresh_ids(ids@.take(i + 1), seen0) == f);
                }
            }
            i = i + 1;
        }
        proof {
            assert(ids@.take(i as int) =~= ids@);
            let f = fresh_ids(ids@, seen0);
            lemma_fresh_ids(ids@, seen0);
            assert forall|x: u64| #[trigger] f.contains(x) implies !seen0.contains(x) by {}
            assert forall|x: u64| #[trigger] f.contains(x) implies !pending0.contains(x) by {}
            lemma_concat_no_duplicates(seen0, f);
            lemma_concat_no_duplicates(pending0, f);
        }
    }

    /// Takes the next group to visit, if any is left.
    pub fn next_group(&mut self) -> (r: Option<u64>)
        requires
            old(self).wf(),
        ensures
            final(self).wf(),
            final(self).seen@ == old(self).seen@,
            old(self).pending@.len() == 0 ==> r is None && final(self).pending@ == old(self).pending@,
            old(self).pending@.len() > 0 ==> r == Some(old(self).pending@.last())
                && final(self).pending@ == old(self).pending@.drop_last(),
    {
        let r = self.pending.pop();
        proof {
            assert forall|x: u64| #[trigger] self.pending@.contains(x) implies self.seen@.contains(x) by {
                let w = choose|w: int| 0 <= w < self.pending@.len() && self.pending@[w] == x;
                assert(old(self).pending@[w] == x);
                assert(old(self).pending@.contains(x));
            }
            assert(self.pending@.no_duplicates()) by {
                assert forall|i: int, j: int| 0 <= i < self.pending@.len() && 0 <= j < self.pending@.len() && i != j
                    implies self.pending@[i] != self.pending@[j] by {
                    assert(old(self).pending@[i] == self.pending@[i]);
                    assert(old(self).pending@[j] == self.pending@[j]);
                }
            }
        }
        r
    }
}

} // verus!
