use vstd::prelude::*;

use crate::att_database::{
    handles_ascending, is_listed, is_listed_readable, read_outcome, result_view, AttAttribute,
    AttDatabase, AttErrorCode, StableAttDatabase,
};
use crate::ids::AttHandle;

verus! {

/// An attribute and its value.
pub type Entry = (AttAttribute, Seq<u8>);

/// The entries of `v`, with each value as a byte sequence.
pub open spec fn entries_view(v: Seq<(AttAttribute, Vec<u8>)>) -> Seq<Entry> {
    v.map_values(|e: (AttAttribute, Vec<u8>)| (e.0, e.1@))
}

/// The attributes of `s`, in the same order.
pub open spec fn attributes_of(s: Seq<Entry>) -> Seq<AttAttribute> {
    s.map_values(|e: Entry| e.0)
}

/// The entries of `s` keyed by handle, where a later entry replaces an
/// earlier one with the same handle.
pub open spec fn keyed(s: Seq<Entry>) -> Map<AttHandle, Entry>
    decreases s.len(),
{
    if s.len() == 0 {
        Map::empty()
    } else {
        keyed(s.drop_last()).insert(s.last().0.handle, s.last())
    }
}

/// A handle is a key of `keyed(s)` exactly when some entry of `s` has it.
pub proof fn lemma_keyed_domain(s: Seq<Entry>, h: AttHandle)
    ensures
        keyed(s).contains_key(h) <==> exists|i: int| 0 <= i < s.len() && (#[trigger] s[i]).0.handle == h,
    decreases s.len(),
{
    if s.len() > 0 {
        let t = s.drop_last();
        lemma_keyed_domain(t, h);
        if keyed(t).contains_key(h) {
            let i = choose|i: int| 0 <= i < t.len() && (#[trigger] t[i]).0.handle == h;
            assert(s[i] == t[i]);
        }
        if exists|i: int| 0 <= i < s.len() && (#[trigger] s[i]).0.handle == h {
            let i = choose|i: int| 0 <= i < s.len() && (#[trigger] s[i]).0.handle == h;
            if i < s.len() - 1 {
                assert(t[i] == s[i]);
            }
        }
    }
}

/// Where handles ascend along `s`, each entry is what `keyed(s)` holds at its
/// handle.
pub proof fn lemma_keyed_at(s: Seq<Entry>, i: int)
    requires
        handles_ascending(attributes_of(s)),
        0 <= i < s.len(),
    ensures
        keyed(s).contains_key(s[i].0.handle),
        keyed(s)[s[i].0.handle] == s[i],
    decreases s.len(),
{
    let t = s.drop_last();
    if i < s.len() - 1 {
        assert(attributes_of(s)[i] == s[i].0);
        assert(attributes_of(s)[s.len() - 1] == s.last().0);
        assert(handles_ascending(attributes_of(t))) by {
            assert forall|a: int, b: int| 0 <= a < b < attributes_of(t).len() implies
                attributes_of(t)[a].handle.0 < attributes_of(t)[b].handle.0 by {
                assert(attributes_of(t)[a] == attributes_of(s)[a]);
                assert(attributes_of(t)[b] == attributes_of(s)[b]);
            }
        }
        assert(t[i] == s[i]);
        lemma_keyed_at(t, i);
    }
}

/// Where handles ascend along `s`, its attributes list exactly the handles
/// that `keyed(s)` holds, each readable as its keyed attribute is.
pub proof fn lemma_listing_keys(s: Seq<Entry>, h: AttHandle)
    requires
        handles_ascending(attributes_of(s)),
    ensures
        is_listed(attributes_of(s), h) <==> keyed(s).contains_key(h),
        is_listed_readable(attributes_of(s), h) <==> keyed(s).contains_key(h)
            && keyed(s)[h].0.permissions.readable,
        keyed(s).contains_key(h) ==> keyed(s)[h].0.handle == h,
{
    let a = attributes_of(s);
    lemma_keyed_domain(s, h);
    if keyed(s).contains_key(h) {
        let i = choose|i: int| 0 <= i < s.len() && (#[trigger] s[i]).0.handle == h;
        lemma_keyed_at(s, i);
        assert(a[i] == s[i].0);
        if is_listed_readable(a, h) {
            let j = choose|j: int|
                0 <= j < a.len() && (#[trigger] a[j]).handle == h && a[j].permissions.readable;
            if j < i {
                assert(a[j].handle.0 < a[i].handle.0);
            } else if j > i {
                assert(a[i].handle.0 < a[j].handle.0);
            }
        }
    }
    if is_listed(a, h) {
        let i = choose|i: int| 0 <= i < a.len() && (#[trigger] a[i]).handle == h;
        assert(a[i] == s[i].0);
    }
}

/// Placing `e` at `p`, between smaller and larger handles, keeps handles
/// ascending and keys `e` under its handle.
proof fn lemma_insert_keyed(s: Seq<Entry>, p: int, e: Entry)
    requires
        handles_ascending(attributes_of(s)),
        0 <= p <= s.len(),
        forall|j: int| 0 <= j < p ==> (#[trigger] s[j]).0.handle.0 < e.0.handle.0,
        forall|j: int| p <= j < s.len() ==> (#[trigger] s[j]).0.handle.0 > e.0.handle.0,
    ensures
        handles_ascending(attributes_of(s.insert(p, e))),
        keyed(s.insert(p, e)) == keyed(s).insert(e.0.handle, e),
{
    let t = s.insert(p, e);
    assert forall|a: int, b: int| 0 <= a < b < attributes_of(t).len() implies
        attributes_of(t)[a].handle.0 < attributes_of(t)[b].handle.0 by {
        assert(attributes_of(t)[a] == t[a].0);
        assert(attributes_of(t)[b] == t[b].0);
        if a < p && b < p {
            assert(attributes_of(s)[a] == s[a].0);
            assert(attributes_of(s)[b] == s[b].0);
        } else if a > p && b > p {
            assert(attributes_of(s)[a - 1] == s[a - 1].0);
            assert(attributes_of(s)[b - 1] == s[b - 1].0);
        }
    }
    let at: spec_fn(int) -> int = |j: int| if j < p { j } else { j + 1 };
    let back: spec_fn(int) -> int = |j: int| if j < p { j } else { j - 1 };
    lemma_same_keys_moved(s, t, e, at, back, p);
}

/// Replacing the entry at `p` by `e` of the same handle keeps handles
/// ascending and keys `e` under its handle.
proof fn lemma_update_keyed(s: Seq<Entry>, p: int, e: Entry)
    requires
        handles_ascending(attributes_of(s)),
        0 <= p < s.len(),
        s[p].0.handle == e.0.handle,
    ensures
        handles_ascending(attributes_of(s.update(p, e))),
        keyed(s.update(p, e)) == keyed(s).insert(e.0.handle, e),
{
    let t = s.update(p, e);
    assert forall|a: int, b: int| 0 <= a < b < attributes_of(t).len() implies
        attributes_of(t)[a].handle.0 < attributes_of(t)[b].handle.0 by {
        assert(attributes_of(t)[a] == t[a].0);
        assert(attributes_of(t)[b] == t[b].0);
        assert(attributes_of(s)[a] == s[a].0);
        assert(attributes_of(s)[b] == s[b].0);
    }
    let at: spec_fn(int) -> int = |j: int| j;
    assert forall|j: int| 0 <= j < t.len() && j != p implies s[j].0.handle != e.0.handle by {
        assert(attributes_of(s)[j] == s[j].0);
        assert(attributes_of(s)[p] == s[p].0);
    }
    lemma_same_keys_moved(s, t, e, at, at, p);
}

/// `t` holds `e` at `p` and the entries of `s` but the one with `e`'s handle,
/// each entry `j` of `s` at `at(j)`: then `t` keys what `s` keys, with `e`
/// under its handle.
proof fn lemma_same_keys_moved(
    s: Seq<Entry>,
    t: Seq<Entry>,
    e: Entry,
    at: spec_fn(int) -> int,
    back: spec_fn(int) -> int,
    p: int,
)
    requires
        handles_ascending(attributes_of(s)),
        handles_ascending(attributes_of(t)),
        0 <= p < t.len(),
        t[p] == e,
        forall|j: int|
            0 <= j < s.len() && s[j].0.handle != e.0.handle ==> 0 <= #[trigger] at(j) < t.len()
                && t[at(j)] == s[j],
        forall|j: int|
            0 <= j < t.len() && j != p ==> 0 <= #[trigger] back(j) < s.len() && t[j] == s[back(j)]
                && s[back(j)].0.handle != e.0.handle,
    ensures
        keyed(t) == keyed(s).insert(e.0.handle, e),
{
    let m = keyed(s).insert(e.0.handle, e);
    assert forall|k: AttHandle| #[trigger] keyed(t).contains_key(k) <==> m.contains_key(k) by {
        lemma_keyed_domain(s, k);
        lemma_keyed_domain(t, k);
        if keyed(t).contains_key(k) && k != e.0.handle {
            let j = choose|j: int| 0 <= j < t.len() && (#[trigger] t[j]).0.handle == k;
            assert(s[back(j)].0.handle == k);
        }
        if m.contains_key(k) && k != e.0.handle {
            let i = choose|i: int| 0 <= i < s.len() && (#[trigger] s[i]).0.handle == k;
            assert(t[at(i)].0.handle == k);
        }
    }
    assert forall|k: AttHandle| #[trigger] keyed(t).contains_key(k) implies keyed(t)[k] == m[k] by {
        if k == e.0.handle {
            lemma_keyed_at(t, p);
        } else {
            lemma_keyed_domain(s, k);
            let i = choose|i: int| 0 <= i < s.len() && (#[trigger] s[i]).0.handle == k;
            lemma_keyed_at(s, i);
            lemma_keyed_at(t, at(i));
        }
    }
    assert(keyed(t) =~= m);
}

/// An in-memory attribute database whose attributes and values are fixed when
/// it is built.
pub struct TestAttDatabase {
    attributes: Vec<(AttAttribute, Vec<u8>)>,
}

impl View for TestAttDatabase {
    type V = Seq<Entry>;

    closed spec fn view(&self) -> Seq<Entry> {
        entries_view(self.attributes@)
    }
}

/// A copy of `v`.
fn copy_bytes(v: &Vec<u8>) -> (r: Vec<u8>)
    ensures
        r@ == v@,
{
    let mut r: Vec<u8> = Vec::new();
    let mut i: usize = 0;
    while i < v.len()
        invariant
            i <= v.len(),
            r@ == v@.take(i as int),
        decreases v.len() - i,
    {
        r.push(v[i]);
        i = i + 1;
        assert(r@ =~= v@.take(i as int));
    }
    assert(v@.take(i as int) =~= v@);
    r
}

impl TestAttDatabase {
    #[verifier::type_invariant]
    closed spec fn handles_in_order(&self) -> bool {
        handles_ascending(attributes_of(self@))
    }

    /// Builds a database from attributes and their values. Where two entries
    /// share a handle, the later one is kept.
    pub fn new(attributes: Vec<(AttAttribute, Vec<u8>)>) -> (r: Self)
        ensures
            handles_ascending(attributes_of(r@)),
            keyed(r@) == keyed(entries_view(attributes@)),
            forall|h: AttHandle|
                #![trigger is_listed(r.listing(), h)]
                #![trigger keyed(entries_view(attributes@)).contains_key(h)]
                is_listed(r.listing(), h) <==> keyed(entries_view(attributes@)).contains_key(h),
            forall|h: AttHandle|
                #![trigger is_listed_readable(r.listing(), h)]
                #![trigger keyed(entries_view(attributes@)).contains_key(h)]
                is_listed_readable(r.listing(), h) <==> (keyed(entries_view(attributes@)).contains_key(h)
                    && keyed(entries_view(attributes@))[h].0.permissions.readable),
    {
        let ghost input = entries_view(attributes@);
        let mut out: Vec<(AttAttribute, Vec<u8>)> = Vec::new();
        let mut i: usize = 0;
        while i < attributes.len()
            invariant
                i <= attributes.len(),
                input == entries_view(attributes@),
                handles_ascending(attributes_of(entries_view(out@))),
                keyed(entries_view(out@)) == keyed(input.take(i as int)),
            decreases attributes.len() - i,
        {
            let att = attributes[i].0;
            let data = copy_bytes(&attributes[i].1);
            let ghost e: Entry = (att, data@);
            let ghost before = entries_view(out@);
            let mut p: usize = 0;
            while p < out.len() && out[p].0.handle.0 < att.handle.0
                invariant
                    p <= out.len(),
                    before == entries_view(out@),
                    forall|j: int| 0 <= j < p ==> (#[trigger] before[j]).0.handle.0 < att.handle.0,
                decreases out.len() - p,
            {
                p = p + 1;
            }
            proof {
                assert(input.take(i as int + 1).drop_last() =~= input.take(i as int));
                assert(input.take(i as int + 1).last() == e);
            }
            if p < out.len() && out[p].0.handle.0 == att.handle.0 {
                out.set(p, (att, data));
                proof {
                    lemma_update_keyed(before, p as int, e);
                    assert(entries_view(out@) =~= before.update(p as int, e));
                }
            } else {
                proof {
                    assert forall|j: int| p <= j < before.len() implies
                        (#[trigger] before[j]).0.handle.0 > att.handle.0 by {
                        assert(attributes_of(before)[p as int] == before[p as int].0);
                        assert(attributes_of(before)[j] == before[j].0);
                    }
                    lemma_insert_keyed(before, p as int, e);
                }
                out.insert(p, (att, data));
                proof {
                    assert(entries_view(out@) =~= before.insert(p as int, e));
                }
            }
            i = i + 1;
        }
        assert(input.take(i as int) =~= input);
        let r = TestAttDatabase { attributes: out };
        assert forall|h: AttHandle|
            #![trigger is_listed(r.listing(), h)]
            #![trigger is_listed_readable(r.listing(), h)]
            #![trigger keyed(input).contains_key(h)]
            (is_listed(r.listing(), h) <==> keyed(input).contains_key(h)) && (is_listed_readable(
                r.listing(),
                h,
            ) <==> (keyed(input).contains_key(h) && keyed(input)[h].0.permissions.readable)) by {
            lemma_listing_keys(r@, h);
        }
        r
    }
}

impl AttDatabase for TestAttDatabase {
    open spec fn listing(&self) -> Seq<AttAttribute> {
        attributes_of(self@)
    }

    open spec fn current_value(&self, handle: AttHandle) -> Seq<u8> {
        if keyed(self@).contains_key(handle) {
            keyed(self@)[handle].1
        } else {
            Seq::empty()
        }
    }

    fn read_attribute(&self, handle: AttHandle) -> (r: Result<Vec<u8>, AttErrorCode>) {
        proof {
            use_type_invariant(self);
        }
        let ghost attrs = attributes_of(self@);
        let mut i: usize = 0;
        while i < self.attributes.len()
            invariant
                i <= self.attributes.len(),
                attrs == attributes_of(self@),
                handles_ascending(attrs),
                self@ == entries_view(self.attributes@),
                forall|j: int| 0 <= j < i ==> (#[trigger] attrs[j]).handle != handle,
            decreases self.attributes.len() - i,
        {
            let att = self.attributes[i].0;
            proof {
                assert(attrs[i as int] == att);
            }
            if att.handle.0 == handle.0 {
                proof {
                    lemma_keyed_at(self@, i as int);
                    assert forall|j: int| 0 <= j < attrs.len() && attrs[j].handle == handle implies j
                        == i by {
                        if j < i {
                        } else if j > i {
                            assert(attrs[i as int].handle.0 < attrs[j].handle.0);
                        }
                    }
                }
                if !att.permissions.readable {
                    return Err(AttErrorCode::ReadNotPermitted);
                }
                return Ok(copy_bytes(&self.attributes[i].1));
            }
            i = i + 1;
        }
        Err(AttErrorCode::InvalidHandle)
    }

    fn list_attributes(&self) -> (r: Vec<AttAttribute>) {
        proof {
            use_type_invariant(self);
        }
        let mut r: Vec<AttAttribute> = Vec::new();
        let mut i: usize = 0;
        while i < self.attributes.len()
            invariant
                i <= self.attributes.len(),
                self@ == entries_view(self.attributes@),
                handles_ascending(attributes_of(self@)),
                r@ == attributes_of(self@).take(i as int),
            decreases self.attributes.len() - i,
        {
            r.push(self.attributes[i].0);
            i = i + 1;
            assert(r@ =~= attributes_of(self@).take(i as int));
        }
        assert(r@ =~= attributes_of(self@));
        r
    }
}

/// Nothing is added to or removed from a built database, nor does any
/// permission change.
impl StableAttDatabase for TestAttDatabase {

}

} // verus!
