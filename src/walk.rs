use vstd::prelude::*;
use vstd::multiset::Multiset;
use vstd::seq_lib::{to_multiset_contains, to_multiset_insert, to_multiset_len, to_multiset_remove};
use crate::text::bytes_eq;
use crate::codec::object_id;
use crate::kind::ObjType;
use crate::tree::{entries_view, tree_body, EntryView, TreeEntry, TreeObjMode};

verus! {

broadcast use vstd::multiset::group_multiset_axioms;

/// Byte-wise lexicographic order on names: a proper prefix comes first.
pub open spec fn name_lt(a: Seq<u8>, b: Seq<u8>) -> bool
    decreases a.len(),
{
    if a.len() == 0 {
        b.len() > 0
    } else if b.len() == 0 {
        false
    } else if a[0] != b[0] {
        a[0] < b[0]
    } else {
        name_lt(a.drop_first(), b.drop_first())
    }
}

pub proof fn lemma_name_lt_irreflexive(a: Seq<u8>)
    ensures
        !name_lt(a, a),
    decreases a.len(),
{
    if a.len() > 0 {
        lemma_name_lt_irreflexive(a.drop_first());
    }
}

pub proof fn lemma_name_lt_asymmetric(a: Seq<u8>, b: Seq<u8>)
    ensures
        name_lt(a, b) ==> !name_lt(b, a),
    decreases a.len(),
{
    if a.len() > 0 && b.len() > 0 && a[0] == b[0] {
        lemma_name_lt_asymmetric(a.drop_first(), b.drop_first());
    }
}

pub proof fn lemma_name_lt_transitive(a: Seq<u8>, b: Seq<u8>, c: Seq<u8>)
    requires
        name_lt(a, b),
        name_lt(b, c),
    ensures
        name_lt(a, c),
    decreases a.len(),
{
    if a.len() > 0 && b.len() > 0 && c.len() > 0 && a[0] == b[0] && b[0] == c[0] {
        lemma_name_lt_transitive(a.drop_first(), b.drop_first(), c.drop_first());
    }
}

pub proof fn lemma_name_lt_total(a: Seq<u8>, b: Seq<u8>)
    requires
        a != b,
    ensures
        name_lt(a, b) || name_lt(b, a),
    decreases a.len(),
{
    if a.len() > 0 && b.len() > 0 && a[0] == b[0] {
        if a.drop_first() == b.drop_first() {
            assert(a =~= seq![a[0]] + a.drop_first());
            assert(b =~= seq![b[0]] + b.drop_first());
        }
        lemma_name_lt_total(a.drop_first(), b.drop_first());
    } else if a.len() == 0 && b.len() == 0 {
        assert(a =~= b);
    }
}

/// Compares two names byte-wise.
pub fn name_less(a: &[u8], b: &[u8]) -> (r: bool)
    ensures
        r == name_lt(a@, b@),
{
    let mut i: usize = 0;
    assert(a@.skip(0) =~= a@);
    assert(b@.skip(0) =~= b@);
    loop
        invariant
            i <= a@.len(),
            i <= b@.len(),
            name_lt(a@, b@) == name_lt(a@.skip(i as int), b@.skip(i as int)),
        decreases a@.len() - i,
    {
        if i == a.len() {
            return i < b.len();
        }
        if i == b.len() {
            return false;
        }
        if a[i] != b[i] {
            return a[i] < b[i];
        }
        assert(a@.skip(i as int).drop_first() =~= a@.skip(i + 1));
        assert(b@.skip(i as int).drop_first() =~= b@.skip(i + 1));
        i = i + 1;
    }
}

/// The name of the store's own control directory, `.git`.
pub open spec fn control_name() -> Seq<u8> {
    seq![46u8, 103u8, 105u8, 116u8]
}

/// Whether `name` is the store's own control directory, which trees leave out.
pub fn is_control_name(name: &[u8]) -> (r: bool)
    ensures
        r == (name@ == control_name()),
{
    let control: Vec<u8> = vec![46u8, 103u8, 105u8, 116u8];
    bytes_eq(name, control.as_slice())
}

/// The mode that a directory child is recorded with: a symbolic link (not
/// followed) as a link, a directory as a directory, and a file as
/// executable when any execute bit of its permission bits is set.
pub open spec fn mode_for(is_symlink: bool, is_dir: bool, mode_bits: u32) -> TreeObjMode {
    if is_symlink {
        TreeObjMode::Link
    } else if is_dir {
        TreeObjMode::Directory
    } else if mode_bits & 73u32 != 0 {
        TreeObjMode::ExecutableFile
    } else {
        TreeObjMode::RegularFile
    }
}

/// Chooses the mode of a directory child from its file type and its
/// permission bits.
pub fn entry_mode(is_symlink: bool, is_dir: bool, mode_bits: u32) -> (r: TreeObjMode)
    ensures
        r == mode_for(is_symlink, is_dir, mode_bits),
{
    if is_symlink {
        TreeObjMode::Link
    } else if is_dir {
        TreeObjMode::Directory
    } else if mode_bits & 73u32 != 0 {
        TreeObjMode::ExecutableFile
    } else {
        TreeObjMode::RegularFile
    }
}

/// The children that a tree records: all but the control directory.
pub open spec fn kept(c: Seq<EntryView>) -> Seq<EntryView>
    decreases c.len(),
{
    if c.len() == 0 {
        Seq::empty()
    } else if c.last().name == control_name() {
        kept(c.drop_last())
    } else {
        kept(c.drop_last()).push(c.last())
    }
}

/// Entry names strictly ascend.
pub open spec fn sorted_names(es: Seq<EntryView>) -> bool {
    forall|i: int, j: int| 0 <= i < j < es.len() ==> name_lt(#[trigger] es[i].name, #[trigger] es[j].name)
}

/// No two children share a name.
pub open spec fn distinct_names(es: Seq<EntryView>) -> bool {
    forall|i: int, j: int| 0 <= i < j < es.len() ==> #[trigger] es[i].name != #[trigger] es[j].name
}

/// `r` is the tree that a directory with children `c` records: the kept
/// children, in ascending name order.
pub open spec fn built_from(c: Seq<EntryView>, r: Seq<EntryView>) -> bool {
    sorted_names(r) && r.to_multiset() == kept(c).to_multiset()
}

proof fn lemma_kept_from(c: Seq<EntryView>, e: EntryView)
    requires
        kept(c).contains(e),
    ensures
        exists|j: int| 0 <= j < c.len() && c[j] == e,
    decreases c.len(),
{
    if c.len() > 0 {
        let d = c.drop_last();
        if kept(d).contains(e) {
            lemma_kept_from(d, e);
            let j = choose|j: int| 0 <= j < d.len() && d[j] == e;
            assert(c[j] == e);
        } else {
            assert(e == c.last());
            assert(c[c.len() - 1] == e);
        }
    }
}

/// Orders a directory's children into the tree that records them: the
/// control directory is left out and the rest sorted by name, byte by
/// byte (`lib` before `lib.rs`).
pub fn build_tree(children: Vec<TreeEntry>) -> (r: Vec<TreeEntry>)
    requires
        distinct_names(entries_view(children@)),
    ensures
        built_from(entries_view(children@), entries_view(r@)),
{
    let ghost cv = entries_view(children@);
    let mut acc: Vec<TreeEntry> = Vec::new();
    let mut i: usize = 0;
    assert(cv.take(0) =~= Seq::<EntryView>::empty());
    assert(entries_view(acc@) =~= Seq::<EntryView>::empty());
    while i < children.len()
        invariant
            cv == entries_view(children@),
            distinct_names(cv),
            i <= children@.len(),
            sorted_names(entries_view(acc@)),
            entries_view(acc@).to_multiset() == kept(cv.take(i as int)).to_multiset(),
        decreases children@.len() - i,
    {
        let x = &children[i];
        let ghost av = entries_view(acc@);
        let ghost xv = x@;
        assert(cv.take(i + 1).drop_last() =~= cv.take(i as int));
        assert(cv.take(i + 1).last() == xv);
        if is_control_name(x.name.as_slice()) {
            assert(kept(cv.take(i + 1)) == kept(cv.take(i as int)));
            i = i + 1;
        } else {
            let mut p: usize = 0;
            while p < acc.len() && !name_less(x.name.as_slice(), acc[p].name.as_slice())
                invariant
                    av == entries_view(acc@),
                    xv == x@,
                    p <= acc@.len(),
                    forall|k: int| 0 <= k < p ==> !name_lt(xv.name, #[trigger] av[k].name),
                decreases acc@.len() - p,
            {
                assert(av[p as int].name == acc@[p as int].name@);
                p = p + 1;
            }
            assert(p < av.len() ==> av[p as int].name == acc@[p as int].name@);
            assert(p < av.len() ==> name_lt(xv.name, av[p as int].name));
            proof {
                assert forall|k: int| 0 <= k < av.len() implies #[trigger] av[k].name != xv.name by {
                    to_multiset_contains(av, av[k]);
                    assert(av.contains(av[k]));
                    to_multiset_contains(kept(cv.take(i as int)), av[k]);
                    lemma_kept_from(cv.take(i as int), av[k]);
                    let j = choose|j: int| 0 <= j < i && cv.take(i as int)[j] == av[k];
                    assert(cv[j] == av[k]);
                }
            }
            let ghost old_acc = acc@;
            acc.insert(p, x.duplicate());
            proof {
                let nv = entries_view(acc@);
                assert(acc@ == old_acc.insert(p as int, acc@[p as int]));
                assert(nv =~= av.insert(p as int, xv));
                to_multiset_insert(av, p as int, xv);
                let kp = kept(cv.take(i as int));
                assert(kept(cv.take(i + 1)) == kp.push(xv));
                assert(kp.push(xv) =~= kp.insert(kp.len() as int, xv));
                to_multiset_insert(kp, kp.len() as int, xv);
                assert forall|a: int, b: int| 0 <= a < b < nv.len() implies name_lt(
                    #[trigger] nv[a].name,
                    #[trigger] nv[b].name,
                ) by {
                    if b < p {
                    } else if b == p {
                        lemma_name_lt_total(av[a].name, xv.name);
                    } else if a < p {
                    } else if a == p {
                        if p < b - 1 {
                            lemma_name_lt_transitive(xv.name, av[p as int].name, av[b - 1].name);
                        }
                    } else {
                    }
                }
            }
            i = i + 1;
        }
    }
    assert(cv.take(i as int) =~= cv);
    acc
}

proof fn lemma_kept_count(c: Seq<EntryView>, e: EntryView)
    ensures
        kept(c).to_multiset().count(e) == if e.name == control_name() {
            0
        } else {
            c.to_multiset().count(e)
        },
    decreases c.len(),
{
    if c.len() == 0 {
        assert(kept(c) =~= Seq::<EntryView>::empty());
        to_multiset_len(c);
        to_multiset_len(kept(c));
        assert(c.to_multiset() =~= Multiset::empty());
        assert(kept(c).to_multiset() =~= Multiset::empty());
    } else {
        let d = c.drop_last();
        lemma_kept_count(d, e);
        assert(c =~= d.insert(d.len() as int, c.last()));
        to_multiset_insert(d, d.len() as int, c.last());
        let kd = kept(d);
        assert(kd.push(c.last()) =~= kd.insert(kd.len() as int, c.last()));
        to_multiset_insert(kd, kd.len() as int, c.last());
    }
}

proof fn lemma_sorted_unique(r1: Seq<EntryView>, r2: Seq<EntryView>)
    requires
        sorted_names(r1),
        sorted_names(r2),
        r1.to_multiset() == r2.to_multiset(),
    ensures
        r1 == r2,
    decreases r1.len(),
{
    to_multiset_len(r1);
    to_multiset_len(r2);
    if r1.len() == 0 {
        assert(r1 =~= r2);
    } else {
        let x = r1[0];
        let y = r2[0];
        to_multiset_contains(r1, x);
        assert(r1.contains(x));
        to_multiset_contains(r2, x);
        let j = r2.lemma_contains_to_index(x);
        to_multiset_contains(r2, y);
        assert(r2.contains(y));
        to_multiset_contains(r1, y);
        let k = r1.lemma_contains_to_index(y);
        if x != y {
            assert(j != 0 && k != 0);
            assert(name_lt(y.name, x.name));
            assert(name_lt(x.name, y.name));
            lemma_name_lt_asymmetric(x.name, y.name);
        }
        to_multiset_remove(r1, 0);
        to_multiset_remove(r2, 0);
        assert(r1.remove(0) =~= r1.drop_first());
        assert(r2.remove(0) =~= r2.drop_first());
        let t1 = r1.drop_first();
        let t2 = r2.drop_first();
        assert(sorted_names(t1)) by {
            assert forall|a: int, b: int| 0 <= a < b < t1.len() implies name_lt(
                #[trigger] t1[a].name,
                #[trigger] t1[b].name,
            ) by {
                assert(t1[a] == r1[a + 1] && t1[b] == r1[b + 1]);
            }
        }
        assert(sorted_names(t2)) by {
            assert forall|a: int, b: int| 0 <= a < b < t2.len() implies name_lt(
                #[trigger] t2[a].name,
                #[trigger] t2[b].name,
            ) by {
                assert(t2[a] == r2[a + 1] && t2[b] == r2[b + 1]);
            }
        }
        lemma_sorted_unique(t1, t2);
        assert(r1 =~= seq![x] + t1);
        assert(r2 =~= seq![y] + t2);
    }
}

/// The tree that records a directory depends on its children alone, not
/// on the order in which they were listed: two listings of the same
/// children build the same tree, with the same body and fingerprint.
pub proof fn lemma_build_deterministic(
    c1: Seq<EntryView>,
    c2: Seq<EntryView>,
    r1: Seq<EntryView>,
    r2: Seq<EntryView>,
)
    requires
        c1.to_multiset() == c2.to_multiset(),
        built_from(c1, r1),
        built_from(c2, r2),
    ensures
        r1 == r2,
        tree_body(r1) == tree_body(r2),
        object_id(ObjType::Tree, tree_body(r1)) == object_id(ObjType::Tree, tree_body(r2)),
{
    assert(kept(c1).to_multiset() =~= kept(c2).to_multiset()) by {
        assert forall|e: EntryView| #[trigger] kept(c1).to_multiset().count(e) == kept(
            c2,
        ).to_multiset().count(e) by {
            lemma_kept_count(c1, e);
            lemma_kept_count(c2, e);
        }
    }
    lemma_sorted_unique(r1, r2);
}

} // verus!
