//! Mirroring a source tree into the staging directory, one entry at a time.
//!
//! The walk and the file operations happen outside; here is what each entry
//! calls for, and a model of a file system in which its effect is stated.

use vstd::prelude::*;

verus! {

/// What a source entry is.
#[derive(PartialEq, Eq, Structural, Clone, Copy, Debug)]
pub enum EntryKind {
    File,
    Dir,
}

/// What stands at the destination path before the entry is copied.
#[derive(PartialEq, Eq, Structural, Clone, Copy, Debug)]
pub enum Existing {
    Absent,
    File,
    Dir,
}

/// One file-system operation on the destination path of an entry.
#[derive(PartialEq, Eq, Structural, Clone, Copy, Debug)]
pub enum MirrorStep {
    /// Create the directory, and any missing ancestors.
    CreateDirAll,
    /// Mirror the source directory's own entries into it.
    Descend,
    /// Remove the directory and everything below it.
    RemoveDirAll,
    /// Remove the single file.
    RemoveFile,
    /// Create a fresh file holding the source file's bytes.
    CopyFile,
}

/// The operations for one entry: a directory is created and descended into;
/// a file first clears whatever stands in its way, then is copied afresh.
pub open spec fn entry_plan(source: EntryKind, existing: Existing) -> Seq<MirrorStep> {
    match source {
        EntryKind::Dir => seq![MirrorStep::CreateDirAll, MirrorStep::Descend],
        EntryKind::File => match existing {
            Existing::Absent => seq![MirrorStep::CopyFile],
            Existing::File => seq![MirrorStep::RemoveFile, MirrorStep::CopyFile],
            Existing::Dir => seq![MirrorStep::RemoveDirAll, MirrorStep::CopyFile],
        },
    }
}

/// The operations that mirror one source entry onto what stands at its
/// destination.
pub fn plan_entry(source: EntryKind, existing: Existing) -> (r: Vec<MirrorStep>)
    ensures
        r@ == entry_plan(source, existing),
{
    let r = match source {
        EntryKind::Dir => vec![MirrorStep::CreateDirAll, MirrorStep::Descend],
        EntryKind::File => match existing {
            Existing::Absent => vec![MirrorStep::CopyFile],
            Existing::File => vec![MirrorStep::RemoveFile, MirrorStep::CopyFile],
            Existing::Dir => vec![MirrorStep::RemoveDirAll, MirrorStep::CopyFile],
        },
    };
    assert(r@ =~= entry_plan(source, existing));
    r
}

/// A node of the file-system model.
pub ghost enum Node {
    File(Seq<u8>),
    Dir,
}

/// A file system as a map from each present path, given as its components,
/// to its node.
pub type FsModel = Map<Seq<Seq<u8>>, Node>;

/// `q` lies strictly below `p`.
pub open spec fn below(p: Seq<Seq<u8>>, q: Seq<Seq<u8>>) -> bool {
    p.len() < q.len() && q.take(p.len() as int) == p
}

pub open spec fn existing_at(fs: FsModel, p: Seq<Seq<u8>>) -> Existing {
    if !fs.contains_key(p) {
        Existing::Absent
    } else {
        match fs[p] {
            Node::File(_) => Existing::File,
            Node::Dir => Existing::Dir,
        }
    }
}

/// The effect of one operation at path `p`; `None` where the operation
/// fails. The model leaves ancestors aside: during a mirror the parent of
/// `p` is a directory already.
pub open spec fn apply_step(fs: FsModel, p: Seq<Seq<u8>>, step: MirrorStep, content: Seq<u8>) -> Option<FsModel> {
    match step {
        MirrorStep::CreateDirAll => if existing_at(fs, p) == Existing::File {
            None
        } else {
            Some(fs.insert(p, Node::Dir))
        },
        MirrorStep::Descend => Some(fs),
        MirrorStep::RemoveDirAll => if existing_at(fs, p) == Existing::Dir {
            Some(fs.remove_keys(Set::new(|q: Seq<Seq<u8>>| q == p || below(p, q))))
        } else {
            None
        },
        MirrorStep::RemoveFile => if existing_at(fs, p) == Existing::File {
            Some(fs.remove(p))
        } else {
            None
        },
        MirrorStep::CopyFile => if existing_at(fs, p) == Existing::Dir {
            None
        } else {
            Some(fs.insert(p, Node::File(content)))
        },
    }
}

/// The effect of a sequence of operations at `p`, stopping at the first
/// that fails.
pub open spec fn apply_steps(fs: FsModel, p: Seq<Seq<u8>>, steps: Seq<MirrorStep>, content: Seq<u8>) -> Option<FsModel>
    decreases steps.len(),
{
    if steps.len() == 0 {
        Some(fs)
    } else {
        match apply_step(fs, p, steps[0], content) {
            Some(next) => apply_steps(next, p, steps.skip(1), content),
            None => None,
        }
    }
}

/// Copying a file onto a path where a file or a directory already stands
/// replaces that entry whole: afterwards the path holds exactly the source
/// bytes, nothing of a former directory is left below it, and every path
/// outside it is as it was.
pub proof fn lemma_file_replaces_conflict(fs: FsModel, p: Seq<Seq<u8>>, content: Seq<u8>)
    requires
        forall|q: Seq<Seq<u8>>|
            below(p, q) && #[trigger] fs.contains_key(q) ==> existing_at(fs, p) == Existing::Dir,
    ensures
        apply_steps(fs, p, entry_plan(EntryKind::File, existing_at(fs, p)), content) is Some,
        ({
            let after = apply_steps(fs, p, entry_plan(EntryKind::File, existing_at(fs, p)), content)->0;
            &&& after.contains_key(p)
            &&& after[p] == Node::File(content)
            &&& forall|q: Seq<Seq<u8>>| below(p, q) ==> !#[trigger] after.contains_key(q)
            &&& forall|q: Seq<Seq<u8>>|
                q != p && !below(p, q) ==> #[trigger] after.contains_key(q) == fs.contains_key(q)
                    && (fs.contains_key(q) ==> after[q] == fs[q])
        }),
{
    let plan = entry_plan(EntryKind::File, existing_at(fs, p));
    let file = Node::File(content);
    match existing_at(fs, p) {
        Existing::Absent => {
            assert(plan[0] == MirrorStep::CopyFile);
            assert(plan.skip(1).len() == 0);
            assert(apply_step(fs, p, plan[0], content) == Some(fs.insert(p, file)));
            assert(apply_steps(fs.insert(p, file), p, plan.skip(1), content) == Some(fs.insert(p, file)));
            assert(apply_steps(fs, p, plan, content) == Some(fs.insert(p, file)));
        },
        Existing::File => {
            let cleared = fs.remove(p);
            assert(apply_step(fs, p, plan[0], content) == Some(cleared));
            assert(existing_at(cleared, p) == Existing::Absent);
            assert(plan.skip(1) =~= seq![MirrorStep::CopyFile]);
            assert(plan.skip(1).skip(1).len() == 0);
            assert(apply_step(cleared, p, plan.skip(1)[0], content) == Some(cleared.insert(p, file)));
            assert(apply_steps(cleared.insert(p, file), p, plan.skip(1).skip(1), content) == Some(
                cleared.insert(p, file),
            ));
            assert(apply_steps(cleared, p, plan.skip(1), content) == Some(cleared.insert(p, file)));
            assert(apply_steps(fs, p, plan, content) == Some(cleared.insert(p, file)));
        },
        Existing::Dir => {
            let gone = Set::new(|q: Seq<Seq<u8>>| q == p || below(p, q));
            let cleared = fs.remove_keys(gone);
            assert(apply_step(fs, p, plan[0], content) == Some(cleared));
            assert(!cleared.contains_key(p));
            assert(existing_at(cleared, p) == Existing::Absent);
            assert(plan.skip(1) =~= seq![MirrorStep::CopyFile]);
            assert(plan.skip(1).skip(1).len() == 0);
            assert(apply_step(cleared, p, plan.skip(1)[0], content) == Some(cleared.insert(p, file)));
            assert(apply_steps(cleared.insert(p, file), p, plan.skip(1).skip(1), content) == Some(
                cleared.insert(p, file),
            ));
            assert(apply_steps(cleared, p, plan.skip(1), content) == Some(cleared.insert(p, file)));
            assert(apply_steps(fs, p, plan, content) == Some(cleared.insert(p, file)));
        },
    }
}


pub open spec fn kind_of(n: Node) -> EntryKind {
    match n {
        Node::File(_) => EntryKind::File,
        Node::Dir => EntryKind::Dir,
    }
}

pub open spec fn content_of(n: Node) -> Seq<u8> {
    match n {
        Node::File(c) => c,
        Node::Dir => Seq::empty(),
    }
}

/// A source entry: its path relative to the source root, and its node.
pub type SourceEntry = (Seq<Seq<u8>>, Node);

/// The effect of mirroring the source entries, in the order the walk meets
/// them, into the destination root `d`; `None` where an operation fails.
pub open spec fn mirror_walk(fs: FsModel, d: Seq<Seq<u8>>, entries: Seq<SourceEntry>) -> Option<FsModel>
    decreases entries.len(),
{
    if entries.len() == 0 {
        Some(fs)
    } else {
        let rel = entries[0].0;
        let node = entries[0].1;
        let p = d + rel;
        match apply_steps(fs, p, entry_plan(kind_of(node), existing_at(fs, p)), content_of(node)) {
            Some(next) => mirror_walk(next, d, entries.skip(1)),
            None => None,
        }
    }
}

proof fn lemma_entry_onto_absent(fs: FsModel, p: Seq<Seq<u8>>, node: Node)
    requires
        !fs.contains_key(p),
    ensures
        apply_steps(fs, p, entry_plan(kind_of(node), existing_at(fs, p)), content_of(node)) == Some(
            fs.insert(p, node),
        ),
{
    let plan = entry_plan(kind_of(node), existing_at(fs, p));
    let c = content_of(node);
    let after = fs.insert(p, node);
    match node {
        Node::Dir => {
            assert(apply_step(fs, p, plan[0], c) == Some(after));
            assert(plan.skip(1) =~= seq![MirrorStep::Descend]);
            assert(plan.skip(1).skip(1).len() == 0);
            assert(apply_step(after, p, plan.skip(1)[0], c) == Some(after));
            assert(apply_steps(after, p, plan.skip(1).skip(1), c) == Some(after));
            assert(apply_steps(after, p, plan.skip(1), c) == Some(after));
        },
        Node::File(bytes) => {
            assert(Node::File(c) == node);
            assert(apply_step(fs, p, plan[0], c) == Some(after));
            assert(plan.skip(1).len() == 0);
            assert(apply_steps(after, p, plan.skip(1), c) == Some(after));
        },
    }
}

proof fn lemma_join_injective(d: Seq<Seq<u8>>, a: Seq<Seq<u8>>, b: Seq<Seq<u8>>)
    requires
        d + a == d + b,
    ensures
        a == b,
{
    assert((d + a).skip(d.len() as int) =~= a);
    assert((d + b).skip(d.len() as int) =~= b);
}

proof fn lemma_walk_onto_absent(fs: FsModel, d: Seq<Seq<u8>>, entries: Seq<SourceEntry>)
    requires
        forall|i: int, j: int|
            0 <= i < j < entries.len() ==> (#[trigger] entries[i]).0 != (#[trigger] entries[j]).0,
        forall|i: int| 0 <= i < entries.len() ==> !fs.contains_key(d + (#[trigger] entries[i]).0),
    ensures
        mirror_walk(fs, d, entries) is Some,
        forall|i: int|
            0 <= i < entries.len() ==> {
                let out = mirror_walk(fs, d, entries)->0;
                &&& out.contains_key(d + (#[trigger] entries[i]).0)
                &&& out[d + entries[i].0] == entries[i].1
            },
        forall|q: Seq<Seq<u8>>|
            (forall|i: int| 0 <= i < entries.len() ==> q != d + (#[trigger] entries[i]).0) ==> {
                &&& #[trigger] mirror_walk(fs, d, entries)->0.contains_key(q) == fs.contains_key(q)
                &&& fs.contains_key(q) ==> mirror_walk(fs, d, entries)->0[q] == fs[q]
            },
    decreases entries.len(),
{
    if entries.len() > 0 {
        let p0 = d + entries[0].0;
        let node0 = entries[0].1;
        let fs1 = fs.insert(p0, node0);
        let rest = entries.skip(1);
        assert(!fs.contains_key(p0));
        lemma_entry_onto_absent(fs, p0, node0);
        assert forall|j: int| 0 <= j < rest.len() implies !fs1.contains_key(d + (#[trigger] rest[j]).0) by {
            assert(rest[j] == entries[j + 1]);
            if d + rest[j].0 == p0 {
                lemma_join_injective(d, rest[j].0, entries[0].0);
            }
        }
        assert forall|i: int, j: int|
            0 <= i < j < rest.len() implies (#[trigger] rest[i]).0 != (#[trigger] rest[j]).0 by {
            assert(rest[i] == entries[i + 1]);
            assert(rest[j] == entries[j + 1]);
        }
        lemma_walk_onto_absent(fs1, d, rest);
        let out = mirror_walk(fs1, d, rest)->0;
        assert(mirror_walk(fs, d, entries) == mirror_walk(fs1, d, rest));
        assert forall|i: int| 0 <= i < entries.len() implies {
            &&& out.contains_key(d + (#[trigger] entries[i]).0)
            &&& out[d + entries[i].0] == entries[i].1
        } by {
            if i == 0 {
                assert forall|j: int| 0 <= j < rest.len() implies p0 != d + (#[trigger] rest[j]).0 by {
                    assert(rest[j] == entries[j + 1]);
                    if p0 == d + rest[j].0 {
                        lemma_join_injective(d, rest[j].0, entries[0].0);
                    }
                }
                assert(out.contains_key(p0) == fs1.contains_key(p0));
            } else {
                assert(rest[i - 1] == entries[i]);
            }
        }
        assert forall|q: Seq<Seq<u8>>|
            (forall|i: int| 0 <= i < entries.len() ==> q != d + (#[trigger] entries[i]).0) implies {
            &&& #[trigger] out.contains_key(q) == fs.contains_key(q)
            &&& fs.contains_key(q) ==> out[q] == fs[q]
        } by {
            assert(q != d + entries[0].0);
            assert forall|j: int| 0 <= j < rest.len() implies q != d + (#[trigger] rest[j]).0 by {
                assert(rest[j] == entries[j + 1]);
            }
        }
    }
}

/// Mirroring a source tree into a destination root with nothing below it
/// yields, at the root joined with each entry's relative path, that very
/// entry: a directory for a directory, the same bytes for a file. No other
/// path is touched.
pub proof fn lemma_mirror_copies_tree(fs: FsModel, d: Seq<Seq<u8>>, entries: Seq<SourceEntry>)
    requires
        forall|i: int, j: int|
            0 <= i < j < entries.len() ==> (#[trigger] entries[i]).0 != (#[trigger] entries[j]).0,
        forall|i: int| 0 <= i < entries.len() ==> (#[trigger] entries[i]).0.len() > 0,
        forall|q: Seq<Seq<u8>>| below(d, q) ==> !#[trigger] fs.contains_key(q),
    ensures
        mirror_walk(fs, d, entries) is Some,
        forall|i: int|
            0 <= i < entries.len() ==> {
                let out = mirror_walk(fs, d, entries)->0;
                &&& out.contains_key(d + (#[trigger] entries[i]).0)
                &&& out[d + entries[i].0] == entries[i].1
            },
        forall|q: Seq<Seq<u8>>|
            (forall|i: int| 0 <= i < entries.len() ==> q != d + (#[trigger] entries[i]).0) ==> {
                &&& #[trigger] mirror_walk(fs, d, entries)->0.contains_key(q) == fs.contains_key(q)
                &&& fs.contains_key(q) ==> mirror_walk(fs, d, entries)->0[q] == fs[q]
            },
{
    assert forall|i: int| 0 <= i < entries.len() implies !fs.contains_key(d + (#[trigger] entries[i]).0) by {
        assert((d + entries[i].0).take(d.len() as int) =~= d);
        assert(below(d, d + entries[i].0));
    }
    lemma_walk_onto_absent(fs, d, entries);
}

} // verus!
