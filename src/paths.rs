//! Which paths are source documents, and where their output goes.
use vstd::prelude::*;
use crate::text::{chars_of, find_last, last_index_of, lemma_last_at, string_of};

verus! {

/// The extension of the source documents.
pub open spec fn source_ext() -> Seq<char> {
    seq!['t', 'e', 'x']
}

/// The extension of the rendered output.
pub open spec fn output_ext() -> Seq<char> {
    seq!['h', 't', 'm', 'l']
}

/// The name of the directory, directly under the source root, that holds the
/// output tree.
pub open spec fn output_dir_name() -> Seq<char> {
    seq!['h', 't', 'm', 'l']
}

/// Where the last component of `p` starts.
pub open spec fn name_start(p: Seq<char>) -> int {
    match last_index_of(p, '/') {
        Some(i) => i + 1,
        None => 0,
    }
}

/// The position of the `.` that starts the extension of `p`'s last
/// component: its last `.`, unless that `.` opens the name.
pub open spec fn ext_dot(p: Seq<char>) -> Option<int> {
    match last_index_of(p, '.') {
        Some(d) => if d > name_start(p) { Some(d) } else { None },
        None => None,
    }
}

/// Is `p` the path of a source document: is the extension of its last
/// component exactly `tex`?
pub open spec fn is_source_spec(p: Seq<char>) -> bool {
    match ext_dot(p) {
        Some(d) => p.subrange(d + 1, p.len() as int) == source_ext(),
        None => false,
    }
}

/// `p` without the extension of its last component.
pub open spec fn stem(p: Seq<char>) -> Seq<char> {
    match ext_dot(p) {
        Some(d) => p.subrange(0, d),
        None => p,
    }
}

/// The root as a directory prefix: with one `/` at its end.
pub open spec fn dir_prefix(root: Seq<char>) -> Seq<char> {
    if root.len() > 0 && root.last() == '/' {
        root
    } else {
        root.push('/')
    }
}

/// The output path of the file `file` under the source root `root`: the
/// file's path relative to the root, under the output directory, with the
/// output extension in place of its own. None where `file` is not under `root`.
pub open spec fn output_path_spec(root: Seq<char>, file: Seq<char>) -> Option<Seq<char>> {
    let dp = dir_prefix(root);
    if dp.len() <= file.len() && file.subrange(0, dp.len() as int) == dp {
        let rel = file.subrange(dp.len() as int, file.len() as int);
        Some(dp + output_dir_name() + seq!['/'] + stem(rel) + seq!['.'] + output_ext())
    } else {
        None
    }
}

/// The position of the extension's `.` in `v`, if its last component has an
/// extension.
fn find_ext_dot(v: &[char]) -> (r: Option<usize>)
    ensures
        match r {
            Some(d) => d < v@.len() && ext_dot(v@) == Some(d as int),
            None => ext_dot(v@) is None,
        },
{
    let n = v.len();
    let slash = find_last(v, '/');
    let start: usize = match slash {
        Some(i) => i + 1,
        None => 0,
    };
    match find_last(v, '.') {
        Some(d) => if d > start { Some(d) } else { None },
        None => None,
    }
}

/// Is `path` the path of a source document (extension exactly `tex`)?
pub fn is_source_file(path: &str) -> (r: bool)
    ensures
        r == is_source_spec(path@),
{
    let v = chars_of(path);
    match find_ext_dot(v.as_slice()) {
        Some(d) => {
            let n = v.len();
            let b = n - d == 4 && v[d + 1] == 't' && v[d + 2] == 'e' && v[d + 3] == 'x';
            proof {
                let e = v@.subrange(d + 1, n as int);
                assert(e.len() == n - d - 1);
                if e.len() == 3 {
                    assert(e[0] == v@[d + 1] && e[1] == v@[d + 2] && e[2] == v@[d + 3]);
                }
                if b {
                    assert(e =~= source_ext());
                } else if e == source_ext() {
                    assert(e[0] == 't' && e[1] == 'e' && e[2] == 'x');
                }
            }
            b
        },
        None => false,
    }
}

/// The output path for the source file `file` under the source root `root`
/// (see `output_path_spec`); None where `file` is not under `root`.
pub fn output_path(root: &str, file: &str) -> (r: Option<String>)
    ensures
        r matches Some(s) ==> output_path_spec(root@, file@) == Some(s@),
        r is None ==> output_path_spec(root@, file@) is None,
{
    let mut dp = chars_of(root);
    let n0 = dp.len();
    if n0 == 0 || dp[n0 - 1] != '/' {
        dp.push('/');
    }
    assert(dp@ == dir_prefix(root@));
    let f = chars_of(file);
    if dp.len() > f.len() {
        return None;
    }
    let mut i: usize = 0;
    while i < dp.len()
        invariant
            i <= dp@.len() <= f@.len(),
            dp@ == dir_prefix(root@),
            f@ == file@,
            forall|j: int| 0 <= j < i ==> dp@[j] == f@[j],
        decreases dp@.len() - i,
    {
        if dp[i] != f[i] {
            proof {
                assert(f@.subrange(0, dp@.len() as int)[i as int] != dp@[i as int]);
            }
            return None;
        }
        i = i + 1;
    }
    assert(f@.subrange(0, dp@.len() as int) =~= dp@);
    let base = dp.len();
    let mut rel: Vec<char> = Vec::new();
    let mut k: usize = base;
    while k < f.len()
        invariant
            base <= k <= f@.len(),
            base == dp@.len(),
            dp@ == dir_prefix(root@),
            f@ == file@,
            f@.subrange(0, base as int) == dp@,
            rel@ == f@.subrange(base as int, k as int),
        decreases f@.len() - k,
    {
        rel.push(f[k]);
        k = k + 1;
        assert(rel@ =~= f@.subrange(base as int, k as int));
    }
    let end: usize = match find_ext_dot(rel.as_slice()) {
        Some(d) => d,
        None => rel.len(),
    };
    let mut out = dp;
    out.push('h');
    out.push('t');
    out.push('m');
    out.push('l');
    out.push('/');
    let ghost head = out@;
    assert(head =~= dir_prefix(root@) + output_dir_name() + seq!['/']);
    let mut j: usize = 0;
    while j < end
        invariant
            end <= rel@.len(),
            j <= end,
            head == dir_prefix(root@) + output_dir_name() + seq!['/'],
            out@ == head + rel@.subrange(0, j as int),
        decreases end - j,
    {
        out.push(rel[j]);
        j = j + 1;
        assert(out@ =~= head + rel@.subrange(0, j as int));
    }
    out.push('.');
    out.push('h');
    out.push('t');
    out.push('m');
    out.push('l');
    proof {
        assert(stem(rel@) =~= rel@.subrange(0, end as int));
        assert(out@ =~= dir_prefix(root@) + output_dir_name() + seq!['/'] + stem(rel@) + seq!['.']
            + output_ext());
    }
    Some(string_of(out.as_slice(), 0, out.len()))
}

/// `s` holds neither `/` nor `.`.
pub open spec fn plain_name(s: Seq<char>) -> bool {
    forall|i: int| 0 <= i < s.len() ==> #[trigger] s[i] != '/' && s[i] != '.'
}

/// In `dir/name.ext`, with a non-empty plain name and a plain extension, the
/// extension's `.` is the one after `name`.
proof fn lemma_ext_dot_of(dir: Seq<char>, name: Seq<char>, ext: Seq<char>)
    requires
        name.len() > 0,
        plain_name(name),
        plain_name(ext),
    ensures
        ext_dot(dir + seq!['/'] + name + seq!['.'] + ext) == Some(dir.len() + 1 + name.len() as int),
{
    let p = dir + seq!['/'] + name + seq!['.'] + ext;
    let s = dir.len() as int;
    let d = s + 1 + name.len() as int;
    assert(p[s] == '/');
    assert(p[d] == '.');
    assert forall|q: int| s < q < p.len() implies #[trigger] p[q] != '/' by {
        if q < d {
            assert(p[q] == name[q - s - 1]);
        } else if q > d {
            assert(p[q] == ext[q - d - 1]);
        }
    }
    assert forall|q: int| d < q < p.len() implies #[trigger] p[q] != '.' by {
        assert(p[q] == ext[q - d - 1]);
    }
    lemma_last_at(p, '/', s);
    lemma_last_at(p, '.', d);
}

/// Scanning keeps a file whose extension is `tex` at any depth under any
/// directory, and passes over one whose extension is `txt`.
pub proof fn lemma_source_by_extension(dir: Seq<char>, name: Seq<char>)
    requires
        name.len() > 0,
        plain_name(name),
    ensures
        is_source_spec(dir + seq!['/'] + name + seq!['.'] + source_ext()),
        !is_source_spec(dir + seq!['/'] + name + seq!['.'] + seq!['t', 'x', 't']),
{
    let a = dir + seq!['/'] + name + seq!['.'] + source_ext();
    let b = dir + seq!['/'] + name + seq!['.'] + seq!['t', 'x', 't'];
    lemma_ext_dot_of(dir, name, source_ext());
    lemma_ext_dot_of(dir, name, seq!['t', 'x', 't']);
    let d = dir.len() + 1 + name.len() as int;
    assert(a.subrange(d + 1, a.len() as int) =~= source_ext());
    assert(b.subrange(d + 1, b.len() as int)[1] == 'x');
}

/// The output tree mirrors the source tree: `root/sub/name.tex` goes to
/// `root/html/sub/name.html`, whatever `sub` is.
pub proof fn lemma_mirror(root: Seq<char>, sub: Seq<char>, name: Seq<char>)
    requires
        root.len() > 0,
        root.last() != '/',
        name.len() > 0,
        plain_name(name),
    ensures
        output_path_spec(root, root + seq!['/'] + sub + seq!['/'] + name + seq!['.'] + source_ext())
            == Some(root + seq!['/'] + output_dir_name() + seq!['/'] + sub + seq!['/'] + name
            + seq!['.'] + output_ext()),
{
    let file = root + seq!['/'] + sub + seq!['/'] + name + seq!['.'] + source_ext();
    let dp = root.push('/');
    assert(dir_prefix(root) == dp);
    assert(file.subrange(0, dp.len() as int) =~= dp);
    let rel = file.subrange(dp.len() as int, file.len() as int);
    assert(rel =~= sub + seq!['/'] + name + seq!['.'] + source_ext());
    assert(plain_name(source_ext())) by {
        assert forall|i: int| 0 <= i < source_ext().len() implies #[trigger] source_ext()[i] != '/'
            && source_ext()[i] != '.' by {}
    }
    lemma_ext_dot_of(sub, name, source_ext());
    assert(stem(rel) =~= sub + seq!['/'] + name);
    assert(dp + output_dir_name() + seq!['/'] + stem(rel) + seq!['.'] + output_ext() =~= root
        + seq!['/'] + output_dir_name() + seq!['/'] + sub + seq!['/'] + name + seq!['.']
        + output_ext());
}

} // verus!
