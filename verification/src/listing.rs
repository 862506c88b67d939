//! Directory listings and their canonical order: directories before files,
//! and within each group ascending by the bytes of the name.

use vstd::prelude::*;
use vstd::utf8::encode_utf8;
use vstd::utf8::encode_utf8_decode_utf8;
use vstd::seq_lib::lemma_multiset_commutative;
use vstd::seq_lib::group_to_multiset_ensures;
use vstd::multiset::group_multiset_axioms;

verus! {

/// One immediate entry of a directory, as a filesystem read reports it.
#[derive(Debug)]
pub struct Entry {
    pub name: String,
    pub fullpath: String,
    pub is_dir: bool,
}

/// The mathematical content of an [`Entry`].
pub struct EntryView {
    pub name: Seq<char>,
    pub fullpath: Seq<char>,
    pub is_dir: bool,
}

impl View for Entry {
    type V = EntryView;

    open spec fn view(&self) -> EntryView {
        EntryView { name: self.name@, fullpath: self.fullpath@, is_dir: self.is_dir }
    }
}

/// The views of a sequence of entries, position by position.
pub open spec fn entry_views(s: Seq<Entry>) -> Seq<EntryView> {
    s.map_values(|e: Entry| e@)
}

/// Strict lexicographic order on byte strings: at the first position where
/// the two differ the smaller byte decides, and a proper prefix comes first.
pub open spec fn bytes_before(a: Seq<u8>, b: Seq<u8>) -> bool
    decreases a.len(),
{
    if b.len() == 0 {
        false
    } else if a.len() == 0 {
        true
    } else if a[0] != b[0] {
        a[0] < b[0]
    } else {
        bytes_before(a.drop_first(), b.drop_first())
    }
}

/// Strict order on names: byte-wise on their UTF-8 encodings.
pub open spec fn name_before(a: Seq<char>, b: Seq<char>) -> bool {
    bytes_before(encode_utf8(a), encode_utf8(b))
}

/// Strict canonical order on entries: a directory comes before a file
/// whatever the names; within a kind the names decide.
pub open spec fn entry_before(a: EntryView, b: EntryView) -> bool {
    if a.is_dir != b.is_dir {
        a.is_dir
    } else {
        name_before(a.name, b.name)
    }
}

/// Two entries that the canonical order cannot tell apart.
pub open spec fn same_key(a: EntryView, b: EntryView) -> bool {
    a.is_dir == b.is_dir && a.name == b.name
}

/// No entry of `s` comes strictly before an earlier one.
pub open spec fn ordered(s: Seq<EntryView>) -> bool {
    forall|i: int, j: int| 0 <= i < j < s.len() ==> !entry_before(s[j], s[i])
}

/// `r` with `e` put in front of the first element that is not strictly
/// before it.
pub open spec fn place(r: Seq<EntryView>, e: EntryView) -> Seq<EntryView>
    decreases r.len(),
{
    if r.len() > 0 && entry_before(r[0], e) {
        seq![r[0]] + place(r.drop_first(), e)
    } else {
        seq![e] + r
    }
}

/// The canonical order of a listing: its entries sorted by `entry_before`,
/// entries of equal key staying in the order in which they were listed.
pub open spec fn canonical_order(s: Seq<EntryView>) -> Seq<EntryView>
    decreases s.len(),
{
    if s.len() == 0 {
        s
    } else {
        place(canonical_order(s.drop_first()), s[0])
    }
}

/// No byte string comes before itself.
pub proof fn lemma_bytes_before_irreflexive(a: Seq<u8>)
    ensures
        !bytes_before(a, a),
    decreases a.len(),
{
    if a.len() > 0 {
        lemma_bytes_before_irreflexive(a.drop_first());
    }
}

/// The order on byte strings is transitive.
pub proof fn lemma_bytes_before_transitive(a: Seq<u8>, b: Seq<u8>, c: Seq<u8>)
    requires
        bytes_before(a, b),
        bytes_before(b, c),
    ensures
        bytes_before(a, c),
    decreases a.len(),
{
    if a.len() > 0 && a[0] == b[0] && b[0] == c[0] {
        lemma_bytes_before_transitive(a.drop_first(), b.drop_first(), c.drop_first());
    }
}

/// Of two different byte strings one comes before the other.
pub proof fn lemma_bytes_before_total(a: Seq<u8>, b: Seq<u8>)
    ensures
        bytes_before(a, b) || bytes_before(b, a) || a == b,
    decreases a.len(),
{
    if a.len() > 0 && b.len() > 0 && a[0] == b[0] {
        lemma_bytes_before_total(a.drop_first(), b.drop_first());
        if a.drop_first() == b.drop_first() {
            assert(a =~= seq![a[0]] + a.drop_first());
            assert(b =~= seq![b[0]] + b.drop_first());
        }
    } else if a.len() == 0 && b.len() == 0 {
        assert(a =~= b);
    }
}

/// A common prefix does not matter to the order.
pub proof fn lemma_bytes_before_skip(a: Seq<u8>, b: Seq<u8>, i: int)
    requires
        0 <= i <= a.len(),
        i <= b.len(),
        forall|j: int| 0 <= j < i ==> a[j] == b[j],
    ensures
        bytes_before(a, b) == bytes_before(a.skip(i), b.skip(i)),
    decreases i,
{
    if i == 0 {
        assert(a.skip(0) =~= a);
        assert(b.skip(0) =~= b);
    } else {
        lemma_bytes_before_skip(a.drop_first(), b.drop_first(), i - 1);
        assert(a.drop_first().skip(i - 1) =~= a.skip(i));
        assert(b.drop_first().skip(i - 1) =~= b.skip(i));
    }
}

/// `entry_before` never holds of an entry and itself.
pub proof fn lemma_entry_before_irreflexive(a: EntryView)
    ensures
        !entry_before(a, a),
{
    lemma_bytes_before_irreflexive(encode_utf8(a.name));
}

/// `entry_before` is transitive.
pub proof fn lemma_entry_before_transitive(a: EntryView, b: EntryView, c: EntryView)
    requires
        entry_before(a, b),
        entry_before(b, c),
    ensures
        entry_before(a, c),
{
    if a.is_dir == b.is_dir && b.is_dir == c.is_dir {
        lemma_bytes_before_transitive(
            encode_utf8(a.name),
            encode_utf8(b.name),
            encode_utf8(c.name),
        );
    }
}

/// Of two entries one comes before the other, or they have the same key.
pub proof fn lemma_entry_before_total(a: EntryView, b: EntryView)
    ensures
        entry_before(a, b) || entry_before(b, a) || same_key(a, b),
{
    if a.is_dir == b.is_dir {
        lemma_bytes_before_total(encode_utf8(a.name), encode_utf8(b.name));
        if encode_utf8(a.name) == encode_utf8(b.name) {
            encode_utf8_decode_utf8(a.name);
            encode_utf8_decode_utf8(b.name);
        }
    }
}

/// "Not after" is transitive.
pub proof fn lemma_not_after_transitive(a: EntryView, b: EntryView, c: EntryView)
    requires
        !entry_before(b, a),
        !entry_before(c, b),
    ensures
        !entry_before(c, a),
{
    if entry_before(c, a) {
        lemma_entry_before_total(a, b);
        if entry_before(a, b) {
            lemma_entry_before_transitive(c, a, b);
        }
    }
}

/// Whether `a` comes strictly before `b` byte by byte.
pub fn name_precedes(a: &str, b: &str) -> (r: bool)
    ensures
        r == name_before(a@, b@),
{
    let x = a.as_bytes();
    let y = b.as_bytes();
    let mut i: usize = 0;
    while i < x.len() && i < y.len()
        invariant
            i <= x@.len(),
            i <= y@.len(),
            x@ == encode_utf8(a@),
            y@ == encode_utf8(b@),
            forall|j: int| 0 <= j < i ==> x@[j] == y@[j],
        decreases x@.len() - i,
    {
        if x[i] != y[i] {
            proof {
                lemma_bytes_before_skip(x@, y@, i as int);
                assert(x@.skip(i as int)[0] == x@[i as int]);
                assert(y@.skip(i as int)[0] == y@[i as int]);
            }
            return x[i] < y[i];
        }
        i += 1;
    }
    proof {
        lemma_bytes_before_skip(x@, y@, i as int);
    }
    x.len() < y.len()
}

impl Entry {
    /// Whether this entry comes strictly before `other` in the canonical
    /// order.
    pub fn precedes(&self, other: &Entry) -> (r: bool)
        ensures
            r == entry_before(self@, other@),
    {
        if self.is_dir != other.is_dir {
            self.is_dir
        } else {
            name_precedes(self.name.as_str(), other.name.as_str())
        }
    }
}

/// The position at which `place` puts `e`: the number of leading entries of
/// `r` that come strictly before it.
pub open spec fn place_index(r: Seq<EntryView>, e: EntryView) -> int
    decreases r.len(),
{
    if r.len() > 0 && entry_before(r[0], e) {
        1 + place_index(r.drop_first(), e)
    } else {
        0
    }
}

/// `place` is an insertion at `place_index`, which is the one position with
/// only strictly smaller entries in front and none right behind.
pub proof fn lemma_place_is_insert(r: Seq<EntryView>, e: EntryView)
    ensures
        0 <= place_index(r, e) <= r.len(),
        place(r, e) == r.insert(place_index(r, e), e),
        forall|j: int| 0 <= j < place_index(r, e) ==> entry_before(#[trigger] r[j], e),
        place_index(r, e) < r.len() ==> !entry_before(r[place_index(r, e)], e),
    decreases r.len(),
{
    if r.len() > 0 && entry_before(r[0], e) {
        let t = r.drop_first();
        lemma_place_is_insert(t, e);
        let p = place_index(t, e);
        assert(seq![r[0]] + t.insert(p, e) =~= r.insert(p + 1, e));
        assert forall|j: int| 0 <= j < p + 1 implies entry_before(#[trigger] r[j], e) by {
            if j > 0 {
                assert(r[j] == t[j - 1]);
            }
        }
        if p + 1 < r.len() {
            assert(r[p + 1] == t[p]);
        }
    } else {
        assert(seq![e] + r =~= r.insert(0, e));
    }
}

/// A position with only strictly smaller entries in front and none right
/// behind is the one that `place_index` computes.
pub proof fn lemma_place_index_found(r: Seq<EntryView>, e: EntryView, p: int)
    requires
        0 <= p <= r.len(),
        forall|j: int| 0 <= j < p ==> entry_before(#[trigger] r[j], e),
        p < r.len() ==> !entry_before(r[p], e),
    ensures
        p == place_index(r, e),
    decreases r.len(),
{
    if p > 0 {
        let t = r.drop_first();
        assert(entry_before(r[0], e));
        assert forall|j: int| 0 <= j < p - 1 implies entry_before(#[trigger] t[j], e) by {
            assert(t[j] == r[j + 1]);
        }
        if p - 1 < t.len() {
            assert(t[p - 1] == r[p]);
        }
        lemma_place_index_found(t, e, p - 1);
    }
}

/// Placing an entry into an ordered sequence leaves it ordered.
pub proof fn lemma_place_ordered(r: Seq<EntryView>, e: EntryView)
    requires
        ordered(r),
    ensures
        ordered(place(r, e)),
{
    lemma_place_is_insert(r, e);
    let p = place_index(r, e);
    let q = place(r, e);
    assert forall|i: int, j: int| 0 <= i < j < q.len() implies !entry_before(q[j], q[i]) by {
        if j == p {
            assert(q[i] == r[i]);
            if entry_before(e, r[i]) {
                lemma_entry_before_transitive(e, r[i], e);
                lemma_entry_before_irreflexive(e);
            }
        } else if i == p {
            assert(q[j] == r[j - 1]);
            if j - 1 > p {
                lemma_not_after_transitive(e, r[p], r[j - 1]);
            }
        } else {
            let i0 = if i < p { i } else { i - 1 };
            let j0 = if j < p { j } else { j - 1 };
            assert(q[i] == r[i0]);
            assert(q[j] == r[j0]);
        }
    }
}

/// The canonical order is ordered.
pub proof fn lemma_canonical_order_ordered(s: Seq<EntryView>)
    ensures
        ordered(canonical_order(s)),
    decreases s.len(),
{
    if s.len() > 0 {
        lemma_canonical_order_ordered(s.drop_first());
        lemma_place_ordered(canonical_order(s.drop_first()), s[0]);
    }
}

/// The canonical order holds exactly the entries of the listing, each as
/// often as the listing does.
pub proof fn lemma_canonical_order_permutes(s: Seq<EntryView>)
    ensures
        canonical_order(s).len() == s.len(),
        canonical_order(s).to_multiset() == s.to_multiset(),
    decreases s.len(),
{
    broadcast use group_to_multiset_ensures;
    broadcast use group_multiset_axioms;

    if s.len() > 0 {
        let t = s.drop_first();
        let c = canonical_order(t);
        lemma_canonical_order_permutes(t);
        lemma_place_is_insert(c, s[0]);
        let p = place_index(c, s[0]);
        let q = c.insert(p, s[0]);
        assert(q.remove(p) =~= c);
        assert(q.remove(p).to_multiset() == q.to_multiset().remove(q[p]));
        assert(q.to_multiset() =~= c.to_multiset().insert(s[0]));
        assert(s =~= seq![s[0]] + t);
        lemma_multiset_commutative(seq![s[0]], t);
        assert(seq![s[0]] =~= Seq::<EntryView>::empty().push(s[0]));
        assert(s.to_multiset() =~= t.to_multiset().insert(s[0]));
    }
}

/// No two entries of `s` have the same kind and name.
pub open spec fn keys_distinct(s: Seq<EntryView>) -> bool {
    forall|i: int, j: int| 0 <= i < j < s.len() ==> !same_key(s[i], s[j])
}

/// A rearrangement of entries with distinct keys has distinct keys.
pub proof fn lemma_keys_distinct_permuted(a: Seq<EntryView>, c: Seq<EntryView>)
    requires
        keys_distinct(a),
        a.to_multiset() == c.to_multiset(),
    ensures
        keys_distinct(c),
{
    broadcast use group_to_multiset_ensures;
    broadcast use group_multiset_axioms;

    assert(a.no_duplicates()) by {
        assert forall|i: int, j: int| 0 <= i < a.len() && 0 <= j < a.len() && i != j implies a[i]
            != a[j] by {
            if i < j {
                assert(!same_key(a[i], a[j]));
            } else {
                assert(!same_key(a[j], a[i]));
            }
        }
    }
    a.lemma_multiset_has_no_duplicates();
    c.lemma_multiset_has_no_duplicates_conv();
    a.to_multiset_ensures();
    c.to_multiset_ensures();
    assert forall|i: int, j: int| 0 <= i < j < c.len() implies !same_key(c[i], c[j]) by {
        assert(c.contains(c[i]));
        assert(c.contains(c[j]));
        assert(c.to_multiset().count(c[i]) > 0);
        assert(c.to_multiset().count(c[j]) > 0);
        assert(a.to_multiset().count(c[i]) > 0);
        assert(a.to_multiset().count(c[j]) > 0);
        assert(a.contains(c[i]));
        assert(a.contains(c[j]));
        let x = choose|x: int| 0 <= x < a.len() && a[x] == c[i];
        let y = choose|y: int| 0 <= y < a.len() && a[y] == c[j];
        if x < y {
            assert(!same_key(a[x], a[y]));
        } else if y < x {
            assert(!same_key(a[y], a[x]));
        }
    }
}

/// Two ordered sequences that hold the same entries, none of them with the
/// key of another, are the same sequence.
pub proof fn lemma_ordered_unique(a: Seq<EntryView>, b: Seq<EntryView>)
    requires
        ordered(a),
        ordered(b),
        keys_distinct(a),
        a.to_multiset() == b.to_multiset(),
    ensures
        a == b,
    decreases a.len(),
{
    broadcast use group_to_multiset_ensures;
    broadcast use group_multiset_axioms;

    a.to_multiset_ensures();
    b.to_multiset_ensures();
    assert(a.len() == b.len());
    if a.len() == 0 {
        assert(a =~= b);
    } else {
        lemma_keys_distinct_permuted(a, b);
        assert(b.contains(b[0]));
        assert(a.contains(a[0]));
        assert(b.to_multiset().count(b[0]) > 0);
        assert(a.to_multiset().count(a[0]) > 0);
        assert(a.to_multiset().count(b[0]) > 0);
        assert(b.to_multiset().count(a[0]) > 0);
        assert(a.contains(b[0]));
        assert(b.contains(a[0]));
        let i = choose|i: int| 0 <= i < a.len() && a[i] == b[0];
        let m = choose|m: int| 0 <= m < b.len() && b[m] == a[0];
        if i > 0 {
            assert(!entry_before(a[i], a[0]));
            assert(!same_key(a[0], a[i]));
            lemma_entry_before_total(a[0], a[i]);
            assert(entry_before(a[0], a[i]));
            if m > 0 {
                assert(!entry_before(b[m], b[0]));
            } else {
                lemma_entry_before_irreflexive(a[0]);
            }
        }
        assert(a[0] == b[0]);
        let ta = a.drop_first();
        let tb = b.drop_first();
        assert(a.remove(0) =~= ta);
        assert(b.remove(0) =~= tb);
        assert(ta.to_multiset() == a.to_multiset().remove(a[0]));
        assert(tb.to_multiset() == b.to_multiset().remove(b[0]));
        assert forall|x: int, y: int| 0 <= x < y < ta.len() implies !entry_before(ta[y], ta[x]) by {
            assert(ta[x] == a[x + 1] && ta[y] == a[y + 1]);
        }
        assert forall|x: int, y: int| 0 <= x < y < tb.len() implies !entry_before(tb[y], tb[x]) by {
            assert(tb[x] == b[x + 1] && tb[y] == b[y + 1]);
        }
        assert forall|x: int, y: int| 0 <= x < y < ta.len() implies !same_key(ta[x], ta[y]) by {
            assert(ta[x] == a[x + 1] && ta[y] == a[y + 1]);
        }
        lemma_ordered_unique(ta, tb);
        assert(a =~= seq![a[0]] + ta);
        assert(b =~= seq![b[0]] + tb);
    }
}

/// The canonical order of a directory's entries does not depend on the
/// order in which a read reports them: two listings that hold the same
/// entries, none of them with the kind and name of another, have the same
/// canonical order.
pub proof fn lemma_canonical_order_of_rearranged(a: Seq<EntryView>, b: Seq<EntryView>)
    requires
        keys_distinct(a),
        a.to_multiset() == b.to_multiset(),
    ensures
        canonical_order(a) == canonical_order(b),
{
    lemma_canonical_order_ordered(a);
    lemma_canonical_order_ordered(b);
    lemma_canonical_order_permutes(a);
    lemma_canonical_order_permutes(b);
    lemma_keys_distinct_permuted(a, canonical_order(a));
    lemma_ordered_unique(canonical_order(a), canonical_order(b));
}

/// Sorts a listing into its canonical order: directories before files, each
/// group ascending by name, and entries of one kind and name in the order
/// in which they were listed.
pub fn sort_entries(v: Vec<Entry>) -> (r: Vec<Entry>)
    ensures
        entry_views(r@) == canonical_order(entry_views(v@)),
        ordered(entry_views(r@)),
        entry_views(r@).to_multiset() == entry_views(v@).to_multiset(),
        r@.len() == v@.len(),
{
    let ghost all = v@;
    let mut rest = v;
    let mut r: Vec<Entry> = Vec::new();
    while rest.len() > 0
        invariant
            rest@.len() <= all.len(),
            rest@ == all.take(rest@.len() as int),
            r@.len() + rest@.len() == all.len(),
            entry_views(r@) == canonical_order(entry_views(all.skip(rest@.len() as int))),
        decreases rest@.len(),
    {
        let ghost before = rest@.len() as int;
        let ghost r0 = r@;
        let e = rest.pop().unwrap();
        let mut p: usize = 0;
        while p < r.len() && r[p].precedes(&e)
            invariant
                p <= r@.len(),
                forall|j: int| 0 <= j < p ==> entry_before(#[trigger] entry_views(r@)[j], e@),
            decreases r@.len() - p,
        {
            p += 1;
        }
        r.insert(p, e);
        proof {
            let done = entry_views(all.skip(before));
            let now = entry_views(all.skip(before - 1));
            assert(e == all[before - 1]);
            assert(now[0] == e@);
            assert(now.drop_first() =~= done);
            lemma_place_index_found(entry_views(r0), e@, p as int);
            lemma_place_is_insert(entry_views(r0), e@);
            assert(entry_views(r@) =~= entry_views(r0).insert(p as int, e@));
            assert(rest@ =~= all.take(rest@.len() as int));
        }
    }
    proof {
        assert(all.skip(0) =~= all);
        lemma_canonical_order_ordered(entry_views(all));
        lemma_canonical_order_permutes(entry_views(all));
    }
    r
}


} // verus!
