//! The staging directory: where it is placed, and when it may be removed.
//!
//! A path is held as its components, each as the bytes of its name, so the
//! checks here compare whole components as the file system does.

use vstd::prelude::*;

verus! {

/// The decimal digits of `n`, most significant first, as ASCII bytes.
pub open spec fn decimal(n: nat) -> Seq<u8>
    decreases n,
{
    if n < 10 {
        seq![(48 + n) as u8]
    } else {
        decimal(n / 10) + seq![(48 + n % 10) as u8]
    }
}

/// `build-script-` as ASCII bytes.
pub open spec fn staging_prefix() -> Seq<u8> {
    seq![98, 117, 105, 108, 100, 45, 115, 99, 114, 105, 112, 116, 45]
}

/// A path held as the bytes of each component, seen as a sequence.
pub open spec fn path_view(p: Seq<Vec<u8>>) -> Seq<Seq<u8>> {
    p.map_values(|c: Vec<u8>| c@)
}

/// The name of the staging directory made at `unix_secs`.
pub open spec fn staging_name(unix_secs: nat) -> Seq<u8> {
    staging_prefix() + decimal(unix_secs)
}

/// A component that names an entry of its directory: not empty, not `.` or
/// `..`, and holding no separator (a slash or a backslash), so that it cannot lead out
/// of the directory it stands in.
pub open spec fn is_plain_name(c: Seq<u8>) -> bool {
    &&& c.len() > 0
    &&& c != seq![46u8]
    &&& c != seq![46u8, 46u8]
    &&& forall|k: int| 0 <= k < c.len() ==> #[trigger] c[k] != 47u8 && c[k] != 92u8
}

/// `path` lies strictly below `root`: it extends `root` by at least one
/// component, and each added component is a plain name.
pub open spec fn strictly_within(path: Seq<Seq<u8>>, root: Seq<Seq<u8>>) -> bool {
    &&& root.len() < path.len()
    &&& path.take(root.len() as int) == root
    &&& forall|k: int| root.len() <= k < path.len() ==> is_plain_name(#[trigger] path[k])
}

fn decimal_bytes(n: u64) -> (r: Vec<u8>)
    ensures
        r@ == decimal(n as nat),
    decreases n,
{
    if n < 10 {
        let r = vec![48 + n as u8];
        assert(r@ =~= decimal(n as nat));
        r
    } else {
        let mut r = decimal_bytes(n / 10);
        r.push(48 + (n % 10) as u8);
        r
    }
}

fn bytes_equal(a: &Vec<u8>, b: &Vec<u8>) -> (r: bool)
    ensures
        r == (a@ == b@),
{
    if a.len() != b.len() {
        return false;
    }
    let mut i: usize = 0;
    while i < a.len()
        invariant
            i <= a.len(),
            a.len() == b.len(),
            forall|k: int| 0 <= k < i ==> a@[k] == b@[k],
        decreases a.len() - i,
    {
        if a[i] != b[i] {
            return false;
        }
        i = i + 1;
    }
    assert(a@ =~= b@);
    true
}

fn clone_bytes(a: &Vec<u8>) -> (r: Vec<u8>)
    ensures
        r@ == a@,
{
    let mut r: Vec<u8> = Vec::new();
    let mut i: usize = 0;
    while i < a.len()
        invariant
            i <= a.len(),
            r@ == a@.take(i as int),
        decreases a.len() - i,
    {
        r.push(a[i]);
        i = i + 1;
        assert(r@ =~= a@.take(i as int));
    }
    assert(r@ =~= a@);
    r
}

fn clone_path(p: &Vec<Vec<u8>>) -> (r: Vec<Vec<u8>>)
    ensures
        path_view(r@) == path_view(p@),
{
    let mut r: Vec<Vec<u8>> = Vec::new();
    let mut i: usize = 0;
    while i < p.len()
        invariant
            i <= p.len(),
            r@.len() == i,
            path_view(r@) == path_view(p@).take(i as int),
        decreases p.len() - i,
    {
        let c = clone_bytes(&p[i]);
        let ghost before = r@;
        r.push(c);
        proof {
            assert(path_view(before) =~= path_view(p@).take(i as int));
            assert(r@ == before.push(c));
            assert forall|k: int| 0 <= k <= i implies #[trigger] path_view(r@)[k] == path_view(p@)[k] by {
                if k < i {
                    assert(r@[k] == before[k]);
                    assert(path_view(before)[k] == path_view(p@)[k]);
                }
            }
        }
        i = i + 1;
        assert(path_view(r@) =~= path_view(p@).take(i as int));
    }
    assert(path_view(r@) =~= path_view(p@));
    r
}

/// A path `p` with one component `name` added at the end.
fn joined(p: &Vec<Vec<u8>>, name: Vec<u8>) -> (r: Vec<Vec<u8>>)
    ensures
        path_view(r@) == path_view(p@).push(name@),
{
    let mut r = clone_path(p);
    r.push(name);
    assert(path_view(r@) =~= path_view(p@).push(name@));
    r
}

/// The name of the staging directory made at `unix_secs`.
pub fn staging_dir_name(unix_secs: u64) -> (r: Vec<u8>)
    ensures
        r@ == staging_name(unix_secs as nat),
{
    let mut r: Vec<u8> = vec![98, 117, 105, 108, 100, 45, 115, 99, 114, 105, 112, 116, 45];
    assert(r@ =~= staging_prefix());
    let digits = decimal_bytes(unix_secs);
    let mut i: usize = 0;
    while i < digits.len()
        invariant
            i <= digits.len(),
            r@ == staging_prefix() + digits@.take(i as int),
        decreases digits.len() - i,
    {
        r.push(digits[i]);
        i = i + 1;
        assert(r@ =~= staging_prefix() + digits@.take(i as int));
    }
    assert(digits@.take(digits.len() as int) =~= digits@);
    r
}

fn is_plain_name_bytes(c: &Vec<u8>) -> (r: bool)
    ensures
        r == is_plain_name(c@),
{
    if c.len() == 0 {
        return false;
    }
    if c.len() == 1 && c[0] == 46 {
        assert(c@ =~= seq![46u8]);
        return false;
    }
    if c.len() == 2 && c[0] == 46 && c[1] == 46 {
        assert(c@ =~= seq![46u8, 46u8]);
        return false;
    }
    assert(c@ != seq![46u8]) by {
        if c@ == seq![46u8] {
            assert(c@[0] == 46u8);
        }
    }
    assert(c@ != seq![46u8, 46u8]) by {
        if c@ == seq![46u8, 46u8] {
            assert(c@[0] == 46u8 && c@[1] == 46u8);
        }
    }
    let mut i: usize = 0;
    while i < c.len()
        invariant
            i <= c.len(),
            forall|k: int| 0 <= k < i ==> #[trigger] c@[k] != 47u8 && c@[k] != 92u8,
        decreases c.len() - i,
    {
        if c[i] == 47 || c[i] == 92 {
            return false;
        }
        i = i + 1;
    }
    true
}

/// A path is strictly below a root.
pub fn is_strictly_within(path: &Vec<Vec<u8>>, root: &Vec<Vec<u8>>) -> (r: bool)
    ensures
        r == strictly_within(path_view(path@), path_view(root@)),
{
    if root.len() >= path.len() {
        return false;
    }
    let mut i: usize = 0;
    while i < root.len()
        invariant
            i <= root.len() < path.len(),
            forall|k: int| 0 <= k < i ==> path_view(path@)[k] == path_view(root@)[k],
        decreases root.len() - i,
    {
        if !bytes_equal(&path[i], &root[i]) {
            assert(path_view(path@).take(root.len() as int)[i as int] != path_view(root@)[i as int]);
            return false;
        }
        i = i + 1;
    }
    assert(path_view(path@).take(root.len() as int) =~= path_view(root@));
    let mut j: usize = root.len();
    while j < path.len()
        invariant
            root.len() <= j <= path.len(),
            forall|k: int| root.len() <= k < j ==> is_plain_name(#[trigger] path_view(path@)[k]),
        decreases path.len() - j,
    {
        let plain = is_plain_name_bytes(&path[j]);
        assert(path_view(path@)[j as int] == path@[j as int]@);
        if !plain {
            return false;
        }
        j = j + 1;
    }
    true
}

/// The private directory that one run builds in.
pub struct BuildDir {
    pub path: Vec<Vec<u8>>,
}

impl BuildDir {
    /// The staging directory for a run started at `unix_secs`, directly
    /// under the temporary-files root.
    pub fn new(temp_root: &Vec<Vec<u8>>, unix_secs: u64) -> (r: BuildDir)
        ensures
            path_view(r.path@) == path_view(temp_root@).push(staging_name(unix_secs as nat)),
            strictly_within(path_view(r.path@), path_view(temp_root@)),
    {
        let r = BuildDir { path: joined(temp_root, staging_dir_name(unix_secs)) };
        proof {
            lemma_fresh_dir_within_root(path_view(temp_root@), unix_secs as nat);
        }
        r
    }

    /// The directory may be removed only while it lies strictly below the
    /// temporary-files root; anything else must not be deleted.
    pub fn may_remove(&self, temp_root: &Vec<Vec<u8>>) -> (r: bool)
        ensures
            r == strictly_within(path_view(self.path@), path_view(temp_root@)),
    {
        is_strictly_within(&self.path, temp_root)
    }

    /// Where the staged manifest lies.
    pub fn manifest_path(&self) -> (r: Vec<Vec<u8>>)
        ensures
            path_view(r@) == path_view(self.path@).push(manifest_file_name()),
    {
        let name: Vec<u8> = vec![67, 97, 114, 103, 111, 46, 116, 111, 109, 108];
        assert(name@ =~= manifest_file_name());
        joined(&self.path, name)
    }

    /// Where the compiled debug executable of the staged crate lies.
    pub fn executable_path(&self, executable_name: &Vec<u8>) -> (r: Vec<Vec<u8>>)
        ensures
            path_view(r@) == path_view(self.path@) + seq![target_dir_name(), debug_dir_name(), executable_name@],
    {
        let target: Vec<u8> = vec![116, 97, 114, 103, 101, 116];
        let debug: Vec<u8> = vec![100, 101, 98, 117, 103];
        assert(target@ =~= target_dir_name());
        assert(debug@ =~= debug_dir_name());
        let a = joined(&self.path, target);
        let b = joined(&a, debug);
        let r = joined(&b, clone_bytes(executable_name));
        assert(path_view(r@) =~= path_view(self.path@) + seq![target_dir_name(), debug_dir_name(), executable_name@]);
        r
    }
}

/// `Cargo.toml` as ASCII bytes.
pub open spec fn manifest_file_name() -> Seq<u8> {
    seq![67, 97, 114, 103, 111, 46, 116, 111, 109, 108]
}

/// `target` as ASCII bytes.
pub open spec fn target_dir_name() -> Seq<u8> {
    seq![116, 97, 114, 103, 101, 116]
}

/// `debug` as ASCII bytes.
pub open spec fn debug_dir_name() -> Seq<u8> {
    seq![100, 101, 98, 117, 103]
}

/// A staging directory made under a root lies strictly below that root, so
/// the guard before its removal lets it through.
pub proof fn lemma_fresh_dir_within_root(temp_root: Seq<Seq<u8>>, unix_secs: nat)
    ensures
        strictly_within(temp_root.push(staging_name(unix_secs)), temp_root),
{
    let name = staging_name(unix_secs);
    let p = temp_root.push(name);
    assert(p.take(temp_root.len() as int) =~= temp_root);
    lemma_decimal_digits(unix_secs);
    assert forall|k: int| 0 <= k < name.len() implies #[trigger] name[k] != 47u8 && name[k]
        != 92u8 by {
        if k >= staging_prefix().len() {
            assert(name[k] == decimal(unix_secs)[k - staging_prefix().len()]);
        }
    }
    assert(name.len() > 2);
    assert(p[temp_root.len() as int] == name);
}

proof fn lemma_decimal_digits(n: nat)
    ensures
        decimal(n).len() >= 1,
        forall|k: int| 0 <= k < decimal(n).len() ==> 48 <= #[trigger] decimal(n)[k] <= 57,
    decreases n,
{
    if n >= 10 {
        lemma_decimal_digits(n / 10);
    }
}

} // verus!
