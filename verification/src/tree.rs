//! An in-memory filesystem tree and a verified recursive copy over it.

use crate::model::{base_child, base_entries, copy_onto, FsModel};
use vstd::prelude::*;

verus! {

/// An in-memory filesystem entry: a regular file with its bytes, or a
/// directory with a list of named children. The list order stands for the
/// order in which a real directory happened to be enumerated; the meaning of
/// the tree is its [`FsModel`], where that order is gone.
pub enum FsTree {
    File { content: Vec<u8> },
    Dir { entries: Vec<(String, FsTree)> },
}

/// The map a list of named children denotes. When a name repeats, the later
/// entry wins; a well-formed tree has no repeats.
pub open spec fn entries_model(s: Seq<(String, FsTree)>) -> Map<Seq<char>, FsModel>
    decreases s,
{
    if s.len() == 0 {
        Map::empty()
    } else {
        entries_model(s.drop_last()).insert(s[s.len() - 1].0@, s[s.len() - 1].1.model())
    }
}

impl FsTree {
    /// The mathematical value of this tree.
    pub open spec fn model(self) -> FsModel
        decreases self,
    {
        match self {
            FsTree::File { content } => FsModel::File { content: content@ },
            FsTree::Dir { entries } => FsModel::Dir { entries: entries_model(entries@) },
        }
    }

    /// Every directory of the tree names each child once.
    pub open spec fn wf(self) -> bool
        decreases self,
    {
        match self {
            FsTree::File { content } => true,
            FsTree::Dir { entries } => {
                &&& forall|i: int, j: int|
                    0 <= i < j < entries@.len() ==> entries@[i].0@ != entries@[j].0@
                &&& forall|i: int| 0 <= i < entries@.len() ==> entries@[i].1.wf()
            },
        }
    }
}

/// A name stands in the map of a child list exactly when some entry of the
/// list carries it.
proof fn lemma_entries_model_dom(s: Seq<(String, FsTree)>, name: Seq<char>)
    ensures
        entries_model(s).dom().contains(name) <==> exists|i: int|
            0 <= i < s.len() && s[i].0@ == name,
    decreases s,
{
    if s.len() > 0 {
        lemma_entries_model_dom(s.drop_last(), name);
        if entries_model(s).dom().contains(name) {
            if s[s.len() - 1].0@ == name {
                assert(s[s.len() - 1].0@ == name);
            } else {
                let i = choose|i: int| 0 <= i < s.drop_last().len() && s.drop_last()[i].0@ == name;
                assert(s[i].0@ == name);
            }
        }
        if exists|i: int| 0 <= i < s.len() && s[i].0@ == name {
            let i = choose|i: int| 0 <= i < s.len() && s[i].0@ == name;
            if i < s.len() - 1 {
                assert(s.drop_last()[i].0@ == name);
            }
        }
    }
}

/// In a list without repeated names, the map sends each entry's name to that
/// entry's model.
proof fn lemma_entries_model_at(s: Seq<(String, FsTree)>, i: int)
    requires
        forall|p: int, q: int| 0 <= p < q < s.len() ==> s[p].0@ != s[q].0@,
        0 <= i < s.len(),
    ensures
        entries_model(s).dom().contains(s[i].0@),
        entries_model(s)[s[i].0@] == s[i].1.model(),
    decreases s,
{
    if i == s.len() - 1 {
    } else {
        lemma_entries_model_at(s.drop_last(), i);
        assert(s.drop_last()[i] == s[i]);
        assert(s[i].0@ != s[s.len() - 1].0@);
    }
}

/// A fresh vector holding the same bytes.
fn copy_bytes(b: &Vec<u8>) -> (r: Vec<u8>)
    ensures
        r@ == b@,
{
    let mut r: Vec<u8> = Vec::new();
    let mut i: usize = 0;
    while i < b.len()
        invariant
            i <= b@.len(),
            r@ == b@.subrange(0, i as int),
        decreases b@.len() - i,
    {
        r.push(b[i]);
        proof {
            assert(b@.subrange(0, i as int).push(b@[i as int]) =~= b@.subrange(0, i + 1 as int));
        }
        i = i + 1;
    }
    proof {
        assert(r@ =~= b@);
    }
    r
}

/// The position of `name` among `entries`, if any entry carries it.
fn find_entry(entries: &Vec<(String, FsTree)>, name: &String) -> (r: Option<usize>)
    ensures
        match r {
            Some(i) => i < entries@.len() && entries@[i as int].0@ == name@,
            None => forall|i: int| 0 <= i < entries@.len() ==> entries@[i].0@ != name@,
        },
{
    let mut i: usize = 0;
    while i < entries.len()
        invariant
            i <= entries@.len(),
            forall|j: int| 0 <= j < i ==> entries@[j].0@ != name@,
        decreases entries@.len() - i,
    {
        if entries[i].0 == *name {
            return Some(i);
        }
        i = i + 1;
    }
    None
}

impl FsTree {
    /// A fresh tree with the same mathematical value.
    pub fn duplicate(&self) -> (r: FsTree)
        ensures
            r.model() == self.model(),
            self.wf() ==> r.wf(),
        decreases self,
    {
        match self {
            FsTree::File { content } => FsTree::File { content: copy_bytes(content) },
            FsTree::Dir { entries } => {
                let mut out: Vec<(String, FsTree)> = Vec::new();
                let mut i: usize = 0;
                while i < entries.len()
                    invariant
                        (*self == FsTree::Dir { entries: *entries }),
                        i <= entries@.len(),
                        out@.len() == i,
                        forall|j: int| 0 <= j < i ==> out@[j].0@ == entries@[j].0@,
                        forall|j: int| 0 <= j < i ==> out@[j].1.model() == entries@[j].1.model(),
                        forall|j: int| 0 <= j < i ==> (entries@[j].1.wf() ==> out@[j].1.wf()),
                    decreases entries@.len() - i,
                {
                    proof {
                        let k = i as int;
                        let t = *self;
                        assert(t is Dir);
                        assert(decreases_to!(t => t->entries));
                        assert(decreases_to!(t->entries => t->entries@));
                        vstd::seq::axiom_seq_index_decreases(t->entries@, k);
                        assert(decreases_to!(t->entries@[k] => t->entries@[k].1));
                        assert(decreases_to!(t => entries@[k].1));
                    }
                    let copied = entries[i].1.duplicate();
                    out.push((entries[i].0.clone(), copied));
                    i = i + 1;
                }
                proof {
                    lemma_entries_model_same(entries@, out@);
                }
                FsTree::Dir { entries: out }
            },
        }
    }
}

/// The model of a destination that may not exist.
pub open spec fn option_model(t: Option<&FsTree>) -> Option<FsModel> {
    match t {
        Some(t) => Some(t.model()),
        None => None,
    }
}

/// Well-formedness of a destination that may not exist.
pub open spec fn option_wf(t: Option<&FsTree>) -> bool {
    match t {
        Some(t) => t.wf(),
        None => true,
    }
}

/// Copy `src` onto `dst`, as the recursive mirroring copy does on a real
/// filesystem: a file overwrites whatever stood at the destination, a
/// directory is merged child by child, and destination entries whose names
/// the source does not use are kept as they were.
#[verifier::loop_isolation(false)]
pub fn copy_into(src: &FsTree, dst: Option<&FsTree>) -> (r: FsTree)
    requires
        src.wf(),
        option_wf(dst),
    ensures
        r.wf(),
        r.model() == copy_onto(src.model(), option_model(dst)),
    decreases *src,
{
    match src {
        FsTree::File { content } => FsTree::File { content: copy_bytes(content) },
        FsTree::Dir { entries } => {
            let ghost smap = entries_model(entries@);
            let ghost dmodel = option_model(dst);
            let ghost bmap = base_entries(dmodel);
            let ghost tmap = copy_onto(src.model(), dmodel)->entries;
            let mut out: Vec<(String, FsTree)> = Vec::new();
            // Keep every destination entry whose name the source does not use.
            match dst {
                Some(FsTree::Dir { entries: dents }) => {
                    proof {
                        assert(bmap == entries_model(dents@));
                    }
                    let mut j: usize = 0;
                    while j < dents.len()
                        invariant
                            j <= dents@.len(),
                            forall|p: int, q: int|
                                0 <= p < q < out@.len() ==> out@[p].0@ != out@[q].0@,
                            forall|p: int| 0 <= p < out@.len() ==> out@[p].1.wf(),
                            forall|p: int|
                                0 <= p < out@.len() ==> bmap.dom().contains(out@[p].0@)
                                    && out@[p].1.model() == bmap[out@[p].0@],
                            forall|p: int, q: int|
                                0 <= p < out@.len() && 0 <= q < entries@.len() ==> entries@[q].0@
                                    != out@[p].0@,
                            forall|p: int| #![trigger out@[p]]
                                0 <= p < out@.len() ==> exists|k: int|
                                    0 <= k < j && #[trigger] dents@[k].0@ == out@[p].0@,
                            forall|k: int| #![trigger dents@[k]]
                                0 <= k < j ==> (exists|p: int|
                                    0 <= p < out@.len() && #[trigger] out@[p].0@ == dents@[k].0@)
                                    || (exists|q: int|
                                    0 <= q < entries@.len() && #[trigger] entries@[q].0@
                                        == dents@[k].0@),
                        decreases dents@.len() - j,
                    {
                        let ghost out0 = out@;
                        let found = find_entry(entries, &dents[j].0);
                        if found.is_none() {
                            proof {
                                lemma_entries_model_at(dents@, j as int);
                            }
                            let kept = dents[j].1.duplicate();
                            out.push((dents[j].0.clone(), kept));
                            proof {
                                assert(out@[out@.len() - 1].0@ == dents@[j as int].0@);
                            }
                        }
                        proof {
                            assert forall|k: int| #![trigger dents@[k]] 0 <= k < j + 1 implies (exists|p: int|
                                0 <= p < out@.len() && #[trigger] out@[p].0@ == dents@[k].0@)
                                || (exists|q: int|
                                0 <= q < entries@.len() && #[trigger] entries@[q].0@
                                    == dents@[k].0@) by {
                                if k < j {
                                    if exists|p: int|
                                        0 <= p < out0.len() && #[trigger] out0[p].0@
                                            == dents@[k].0@ {
                                        let p0 = choose|p: int|
                                            0 <= p < out0.len() && #[trigger] out0[p].0@
                                                == dents@[k].0@;
                                        assert(out@[p0].0@ == dents@[k].0@);
                                    }
                                } else {
                                    match found {
                                        Some(idx) => {
                                            assert(entries@[idx as int].0@ == dents@[j as int].0@);
                                        },
                                        None => {
                                            assert(out@[out@.len() - 1].0@ == dents@[j as int].0@);
                                        },
                                    }
                                }
                            }
                        }
                        j = j + 1;
                    }
                    proof {
                        assert forall|p: int|
                            0 <= p < out@.len() implies tmap.dom().contains(out@[p].0@)
                            && out@[p].1.model() == tmap[out@[p].0@] by {
                            lemma_entries_model_dom(entries@, out@[p].0@);
                        }
                        assert forall|name: Seq<char>|
                            bmap.dom().contains(name) && !smap.dom().contains(
                                name,
                            ) implies exists|p: int|
                            0 <= p < out@.len() && #[trigger] out@[p].0@ == name by {
                            lemma_entries_model_dom(dents@, name);
                            lemma_entries_model_dom(entries@, name);
                            let k = choose|k: int| 0 <= k < dents@.len() && dents@[k].0@ == name;
                            assert(dents@[k].0@ == name);
                        }
                    }
                },
                _ => {
                    proof {
                        assert(bmap =~= Map::<Seq<char>, FsModel>::empty());
                    }
                },
            }
            // Copy each source child onto the destination child of its name.
            let mut i: usize = 0;
            while i < entries.len()
                invariant
                    i <= entries@.len(),
                    forall|p: int, q: int| 0 <= p < q < out@.len() ==> out@[p].0@ != out@[q].0@,
                    forall|p: int| 0 <= p < out@.len() ==> out@[p].1.wf(),
                    forall|p: int|
                        0 <= p < out@.len() ==> tmap.dom().contains(out@[p].0@) && out@[p].1.model()
                            == tmap[out@[p].0@],
                    forall|p: int| #![trigger out@[p]]
                        0 <= p < out@.len() ==> (exists|k: int|
                            0 <= k < i && #[trigger] entries@[k].0@ == out@[p].0@) || (forall|q: int|
                            0 <= q < entries@.len() ==> #[trigger] entries@[q].0@ != out@[p].0@),
                    forall|name: Seq<char>| #![trigger bmap.dom().contains(name)]
                        bmap.dom().contains(name) && !smap.dom().contains(name)
                            ==> exists|p: int| 0 <= p < out@.len() && #[trigger] out@[p].0@ == name,
                    forall|k: int| #![trigger entries@[k]]
                        0 <= k < i ==> exists|p: int|
                            0 <= p < out@.len() && #[trigger] out@[p].0@ == entries@[k].0@,
                decreases entries@.len() - i,
            {
                proof {
                    let k = i as int;
                    let t = *src;
                    assert(decreases_to!(t => t->entries));
                    assert(decreases_to!(t->entries => t->entries@));
                    vstd::seq::axiom_seq_index_decreases(t->entries@, k);
                    assert(decreases_to!(t->entries@[k] => t->entries@[k].1));
                    assert(decreases_to!(t => entries@[k].1));
                }
                let dchild: Option<&FsTree> = match dst {
                    Some(FsTree::Dir { entries: dents }) => {
                        match find_entry(dents, &entries[i].0) {
                            Some(k) => {
                                proof {
                                    lemma_entries_model_at(dents@, k as int);
                                }
                                Some(&dents[k].1)
                            },
                            None => {
                                proof {
                                    lemma_entries_model_dom(dents@, entries@[i as int].0@);
                                }
                                None
                            },
                        }
                    },
                    _ => None,
                };
                proof {
                    assert(option_model(dchild) == base_child(dmodel, entries@[i as int].0@));
                    lemma_entries_model_dom(entries@, entries@[i as int].0@);
                    lemma_entries_model_at(entries@, i as int);
                }
                let sub = copy_into(&entries[i].1, dchild);
                let ghost out1 = out@;
                out.push((entries[i].0.clone(), sub));
                proof {
                    assert(out@[out@.len() - 1].0@ == entries@[i as int].0@);
                    assert forall|name: Seq<char>|
                        bmap.dom().contains(name) && !smap.dom().contains(name) implies exists|p: int|
                        0 <= p < out@.len() && #[trigger] out@[p].0@ == name by {
                        let p0 = choose|p: int|
                            0 <= p < out1.len() && #[trigger] out1[p].0@ == name;
                        assert(out@[p0].0@ == name);
                    }
                    assert forall|k: int| #![trigger entries@[k]] 0 <= k < i + 1 implies exists|p: int|
                        0 <= p < out@.len() && #[trigger] out@[p].0@ == entries@[k].0@ by {
                        if k < i {
                            let p0 = choose|p: int|
                                0 <= p < out1.len() && #[trigger] out1[p].0@ == entries@[k].0@;
                            assert(out@[p0].0@ == entries@[k].0@);
                        } else {
                            assert(out@[out@.len() - 1].0@ == entries@[i as int].0@);
                        }
                    }
                }
                i = i + 1;
            }
            proof {
                assert forall|name: Seq<char>| tmap.dom().contains(name) implies entries_model(
                    out@,
                ).dom().contains(name) by {
                    lemma_entries_model_dom(entries@, name);
                    lemma_entries_model_dom(out@, name);
                    if smap.dom().contains(name) {
                        let k = choose|k: int| 0 <= k < entries@.len() && entries@[k].0@ == name;
                        assert(exists|p: int| 0 <= p < out@.len() && out@[p].0@ == entries@[k].0@);
                    }
                }
                assert forall|name: Seq<char>| entries_model(out@).dom().contains(name) implies tmap
                    .dom().contains(name) && entries_model(out@)[name] == tmap[name] by {
                    lemma_entries_model_dom(out@, name);
                    let p = choose|p: int| 0 <= p < out@.len() && out@[p].0@ == name;
                    lemma_entries_model_at(out@, p);
                }
                assert forall|name: Seq<char>| #![trigger tmap.dom().contains(name)]
                    entries_model(out@).dom().contains(name) == tmap.dom().contains(name) by {
                    lemma_entries_model_dom(out@, name);
                }
                assert(entries_model(out@).dom() =~= tmap.dom());
                assert(entries_model(out@) =~= tmap);
            }
            FsTree::Dir { entries: out }
        },
    }
}

/// Two child lists of the same length, with the same names in the same order
/// and children of the same model, denote the same map.
proof fn lemma_entries_model_same(a: Seq<(String, FsTree)>, b: Seq<(String, FsTree)>)
    requires
        a.len() == b.len(),
        forall|j: int| 0 <= j < a.len() ==> a[j].0@ == b[j].0@,
        forall|j: int| 0 <= j < a.len() ==> a[j].1.model() == b[j].1.model(),
    ensures
        entries_model(a) == entries_model(b),
    decreases a,
{
    if a.len() > 0 {
        lemma_entries_model_same(a.drop_last(), b.drop_last());
        assert(entries_model(a) == entries_model(a.drop_last()).insert(
            a[a.len() - 1].0@,
            a[a.len() - 1].1.model(),
        ));
        assert(entries_model(b) == entries_model(b.drop_last()).insert(
            b[b.len() - 1].0@,
            b[b.len() - 1].1.model(),
        ));
    }
}

} // verus!
