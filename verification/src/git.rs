//! Git comparison modes, changed files, test-file classification, patch parsing, and the
//! arguments of the `git` invocations that read them.
use vstd::prelude::*;


use vstd::utf8::{decode_utf8, valid_utf8};

use crate::til::{trim_spec, validate_content};

use crate::text::{
    chars_of, contains_exec, contains_seq, decimal, ends_with, ends_with_exec, fields_from, fields_of,
    first_index_of, find_from, lemma_first_index_of, lemma_first_index_shift, lines, lines_of, parse_usize, parse_usize_spec, push_char,
    push_chars, push_str, slice_of, starts_with, starts_with_exec, string_from_chars, tail_of,
};

verus! {

/// What a review compares.
#[derive(Clone, Debug, PartialEq, Eq)]
pub enum Mode {
    Working,
    Unstaged,
    Staged,
    Branches(String, String),
}

/// The title of a comparison mode.
pub open spec fn mode_label(m: Mode) -> Seq<char> {
    match m {
        Mode::Working => "HEAD -> working tree (staged + unstaged)"@,
        Mode::Unstaged => "index -> working tree (unstaged)"@,
        Mode::Staged => "HEAD -> index (staged)"@,
        Mode::Branches(from, to) => from@ + " -> "@ + to@,
    }
}

impl Mode {
    pub fn label(&self) -> (res: String)
        ensures
            res@ == mode_label(*self),
    {
        match self {
            Mode::Working => String::from_str("HEAD -> working tree (staged + unstaged)"),
            Mode::Unstaged => String::from_str("index -> working tree (unstaged)"),
            Mode::Staged => String::from_str("HEAD -> index (staged)"),
            Mode::Branches(from, to) => {
                let mut res = from.clone();
                push_str(&mut res, " -> ");
                push_str(&mut res, to.as_str());
                res
            },
        }
    }
}

/// A changed file: its one-letter git status, its path (raw bytes), and for renames and copies
/// the path it came from.
#[derive(Clone, Debug, PartialEq, Eq)]
pub struct Change {
    pub status: char,
    pub path: Vec<u8>,
    pub old_path: Option<Vec<u8>>,
}

/// The bytes of an optional path.
pub open spec fn opt_bytes(p: Option<Vec<u8>>) -> Option<Seq<u8>> {
    match p {
        Some(v) => Some(v@),
        None => None,
    }
}

impl View for Change {
    type V = (char, Seq<u8>, Option<Seq<u8>>);

    open spec fn view(&self) -> (char, Seq<u8>, Option<Seq<u8>>) {
        (self.status, self.path@, opt_bytes(self.old_path))
    }
}

/// A copy of `v`.
pub fn copy_bytes(v: &Vec<u8>) -> (res: Vec<u8>)
    ensures
        res@ == v@,
{
    slice_of(v, 0, v.len())
}

/// A copy of a change.
pub fn copy_change(c: &Change) -> (res: Change)
    ensures
        res@ == c@,
{
    Change {
        status: c.status,
        path: copy_bytes(&c.path),
        old_path: match &c.old_path {
            Some(p) => Some(copy_bytes(p)),
            None => None,
        },
    }
}

// ---------------------------------------------------------------------------
// Test-file classification
/// Each byte read as the character with the same code (so ASCII bytes read as themselves and no
/// other byte equals an ASCII character).
pub open spec fn latin1(b: Seq<u8>) -> Seq<char> {
    b.map_values(|x: u8| x as char)
}

/// ASCII upper case to lower case.
pub open spec fn lower_byte(b: u8) -> u8 {
    if 65 <= b <= 90 {
        (b + 32) as u8
    } else {
        b
    }
}

/// ASCII lower case of a byte string.
pub open spec fn lower_bytes(b: Seq<u8>) -> Seq<u8> {
    b.map_values(|x: u8| lower_byte(x))
}

/// `p[i..j]` is one component of the path `p`: a maximal run of bytes other than `'/'`.
pub open spec fn is_component(p: Seq<char>, i: int, j: int) -> bool {
    &&& 0 <= i < j <= p.len()
    &&& (i == 0 || p[i - 1] == '/')
    &&& (j == p.len() || p[j] == '/')
    &&& forall|k: int| i <= k < j ==> p[k] != '/'
}

/// A directory or file name that marks test code, compared in ASCII lower case.
pub open spec fn is_test_dir_name(n: Seq<char>) -> bool {
    ||| n == "test"@
    ||| n == "tests"@
    ||| n == "__tests__"@
    ||| n == "__snapshots__"@
    ||| n == "testdata"@
    ||| n == "testfixtures"@
    ||| n == "test-fixtures"@
    ||| n == "androidtest"@
    ||| n == "unittest"@
    ||| n == "integrationtest"@
    ||| n == "integrationtests"@
    ||| n == "integration-test"@
    ||| n == "integration-tests"@
    ||| n == "commontest"@
    ||| n == "jvmtest"@
    ||| n == "jstest"@
    ||| n == "nativetest"@
    ||| n == "iostest"@
    ||| n == "e2e"@
    ||| n == "spec"@
    ||| n == "specs"@
}

/// The names of directories that hold test code, in ASCII lower case: `test`, `tests`,
/// `__tests__`, `__snapshots__`, `testdata`, `testfixtures`, `test-fixtures`, `androidtest`,
/// `unittest`, `integrationtest(s)`, `integration-test(s)`, `commontest`, `jvmtest`, `jstest`,
/// `nativetest`, `iostest`, `e2e`, `spec` and `specs` mark test code, and no other name does.
pub proof fn law_test_directory_names(n: Seq<char>)
    ensures
        is_test_dir_name(n) <==> (n == "test"@ || n == "tests"@ || n == "__tests__"@ || n
            == "__snapshots__"@ || n == "testdata"@ || n == "testfixtures"@ || n == "test-fixtures"@
            || n == "androidtest"@ || n == "unittest"@ || n == "integrationtest"@ || n
            == "integrationtests"@ || n == "integration-test"@ || n == "integration-tests"@ || n
            == "commontest"@ || n == "jvmtest"@ || n == "jstest"@ || n == "nativetest"@ || n
            == "iostest"@ || n == "e2e"@ || n == "spec"@ || n == "specs"@),
{
}

/// A path with a component named like a test directory, in any ASCII case, is test code:
/// `spec/models/user_spec.rb`, `src/Tests/a.rs`, `web/__tests__/x.js` and the like.
pub proof fn law_test_directories_mark_test_code(p: Seq<u8>, i: int, j: int)
    requires
        is_component(latin1(p), i, j),
        ({
            let n = latin1(lower_bytes(p)).subrange(i, j);
            n == "test"@ || n == "tests"@ || n == "__tests__"@ || n == "__snapshots__"@ || n
                == "testdata"@ || n == "testfixtures"@ || n == "test-fixtures"@ || n
                == "androidtest"@ || n == "unittest"@ || n == "integrationtest"@ || n
                == "integrationtests"@ || n == "integration-test"@ || n == "integration-tests"@
                || n == "commontest"@ || n == "jvmtest"@ || n == "jstest"@ || n == "nativetest"@
                || n == "iostest"@ || n == "e2e"@ || n == "spec"@ || n == "specs"@
        }),
    ensures
        is_test_path_spec(p),
{
    let low = latin1(lower_bytes(p));
    law_test_directory_names(low.subrange(i, j));
    assert(is_test_dir_name(low.subrange(i, j)));
}

/// The last index of `c` in `s`, or -1.
pub open spec fn last_index_of<A>(s: Seq<A>, c: A) -> int
    decreases s.len(),
{
    if s.len() == 0 {
        -1
    } else if s.last() == c {
        s.len() - 1
    } else {
        last_index_of(s.drop_last(), c)
    }
}

pub proof fn lemma_last_index_of<A>(s: Seq<A>, c: A)
    ensures
        -1 <= last_index_of(s, c) < s.len(),
        last_index_of(s, c) >= 0 ==> s[last_index_of(s, c)] == c,
        forall|j: int| last_index_of(s, c) < j < s.len() ==> s[j] != c,
    decreases s.len(),
{
    if s.len() > 0 && s.last() != c {
        lemma_last_index_of(s.drop_last(), c);
        assert forall|j: int| last_index_of(s, c) < j < s.len() implies s[j] != c by {
            if j < s.len() - 1 {
                assert(s[j] == s.drop_last()[j]);
            }
        }
    }
}

/// The file name of a path as `Path::file_name` gives it: the last component after trailing
/// `'/'` and `"."` components are dropped, and none when that component is `".."` or there is
/// none.
pub open spec fn file_name(p: Seq<char>) -> Option<Seq<char>>
    decreases p.len(),
{
    if p.len() == 0 {
        None
    } else if p.last() == '/' {
        file_name(p.drop_last())
    } else {
        let k = last_index_of(p, '/');
        proof {
            lemma_last_index_of(p, '/');
        }
        let seg = p.subrange(k + 1, p.len() as int);
        if seg == "."@ {
            if k < 0 {
                None
            } else {
                file_name(p.subrange(0, k))
            }
        } else if seg == ".."@ {
            None
        } else {
            Some(seg)
        }
    }
}

/// The stem of a file name as `Path::file_stem` gives it: the part before the last `'.'`, or the
/// whole name when it has no `'.'` or only a leading one.
pub open spec fn file_stem(n: Seq<char>) -> Seq<char> {
    let k = last_index_of(n, '.');
    if k <= 0 {
        n
    } else {
        n.subrange(0, k)
    }
}

/// The file-name rules for test code (`lower` is the name in ASCII lower case).
pub open spec fn is_test_file_name(name: Seq<char>, lower: Seq<char>) -> bool {
    ||| contains_seq(lower, ".test."@)
    ||| contains_seq(lower, ".spec."@)
    ||| ends_with(lower, "_test.go"@)
    ||| (ends_with(lower, ".py"@) && (starts_with(lower, "test_"@) || ends_with(lower, "_test.py"@)))
    ||| ((ends_with(lower, ".java"@) || ends_with(lower, ".kt"@) || ends_with(lower, ".scala"@)
        || ends_with(lower, ".groovy"@)) && (ends_with(file_stem(name), "Test"@) || ends_with(
        file_stem(name),
        "Tests"@,
    ) || ends_with(file_stem(name), "Spec"@)))
}

/// Whether a path (raw bytes) names test code: some component is a test directory name, or
/// the file name follows a test naming convention.
pub open spec fn is_test_path_spec(p: Seq<u8>) -> bool {
    let raw = latin1(p);
    let low = latin1(lower_bytes(p));
    ||| exists|i: int, j: int|
        is_component(raw, i, j) && #[trigger] is_test_dir_name(low.subrange(i, j))
    ||| match file_name(raw) {
        Some(name) => is_test_file_name(name, file_name_lower(raw, low)),
        None => false,
    }
}

/// A path whose file name follows a test naming convention is test code, whatever its
/// directories: a name (in ASCII lower case) holding `.test.` or `.spec.`, a Go `_test.go`
/// file, a Python `test_*.py` or `*_test.py` file, or a Java, Kotlin, Scala or Groovy file whose
/// stem ends in `Test`, `Tests` or `Spec`.
pub proof fn law_test_file_names_mark_test_code(p: Seq<u8>)
    requires
        file_name(latin1(p)) is Some,
        ({
            let name = file_name(latin1(p)).unwrap();
            let lower = file_name_lower(latin1(p), latin1(lower_bytes(p)));
            let stem = file_stem(name);
            ||| contains_seq(lower, ".test."@)
            ||| contains_seq(lower, ".spec."@)
            ||| ends_with(lower, "_test.go"@)
            ||| ends_with(lower, ".py"@) && starts_with(lower, "test_"@)
            ||| ends_with(lower, "_test.py"@)
            ||| (ends_with(lower, ".java"@) || ends_with(lower, ".kt"@) || ends_with(lower, ".scala"@)
                || ends_with(lower, ".groovy"@)) && (ends_with(stem, "Test"@) || ends_with(stem, "Tests"@)
                || ends_with(stem, "Spec"@))
        }),
    ensures
        is_test_path_spec(p),
{
    let lower = file_name_lower(latin1(p), latin1(lower_bytes(p)));
    if ends_with(lower, "_test.py"@) {
        reveal_strlit("_test.py");
        reveal_strlit(".py");
        let n = lower.len();
        assert(lower.subrange(n - 3, n as int) =~= lower.subrange(n - 8, n as int).subrange(5, 8));
        assert("_test.py"@.subrange(5, 8) =~= ".py"@);
    }
}

/// The file name of `raw` taken from its lower-case copy `low` (same positions).
pub open spec fn file_name_lower(raw: Seq<char>, low: Seq<char>) -> Seq<char> {
    let n = file_name(raw).unwrap();
    low.subrange(file_name_start(raw), file_name_start(raw) + n.len())
}

/// Where the file name of `p` begins.
pub open spec fn file_name_start(p: Seq<char>) -> int
    decreases p.len(),
{
    if p.len() == 0 {
        0
    } else if p.last() == '/' {
        file_name_start(p.drop_last())
    } else {
        let k = last_index_of(p, '/');
        proof {
            lemma_last_index_of(p, '/');
        }
        let seg = p.subrange(k + 1, p.len() as int);
        if seg == "."@ && k >= 0 {
            file_name_start(p.subrange(0, k))
        } else {
            k + 1
        }
    }
}

/// Where the file name of `p` lies, when it has one.
pub proof fn lemma_file_name_range(p: Seq<char>)
    ensures
        file_name(p) is Some ==> 0 <= file_name_start(p) && file_name_start(p) + file_name(
            p,
        ).unwrap().len() <= p.len() && p.subrange(
            file_name_start(p),
            file_name_start(p) + file_name(p).unwrap().len(),
        ) == file_name(p).unwrap(),
    decreases p.len(),
{
    if p.len() == 0 {
    } else if p.last() == '/' {
        lemma_file_name_range(p.drop_last());
        if file_name(p) is Some {
            let s = file_name_start(p);
            let n = file_name(p).unwrap();
            assert(p.drop_last().subrange(s, s + n.len()) =~= p.subrange(s, s + n.len()));
        }
    } else {
        let k = last_index_of(p, '/');
        lemma_last_index_of(p, '/');
        let seg = p.subrange(k + 1, p.len() as int);
        if seg == "."@ && k >= 0 {
            lemma_file_name_range(p.subrange(0, k));
            if file_name(p) is Some {
                let s = file_name_start(p);
                let n = file_name(p).unwrap();
                assert(p.subrange(0, k).subrange(s, s + n.len()) =~= p.subrange(s, s + n.len()));
            }
        }
    }
}

/// Lower-cases ASCII letters of a byte.
pub fn lower_byte_exec(b: u8) -> (res: u8)
    ensures
        res == lower_byte(b),
{
    if 65 <= b && b <= 90 {
        b + 32
    } else {
        b
    }
}

/// Each byte read as a character (see [`latin1`]).
pub fn latin1_exec(b: &Vec<u8>, lower: bool) -> (res: Vec<char>)
    ensures
        res@ == (if lower {
            latin1(lower_bytes(b@))
        } else {
            latin1(b@)
        }),
{
    let mut res: Vec<char> = Vec::new();
    for i in 0..b.len()
        invariant
            res@.len() == i,
            forall|k: int|
                0 <= k < i ==> res@[k] == (if lower {
                    lower_byte(b@[k]) as char
                } else {
                    b@[k] as char
                }),
    {
        let x = if lower {
            lower_byte_exec(b[i])
        } else {
            b[i]
        };
        res.push(x as char);
    }
    if lower {
        assert(res@ =~= latin1(lower_bytes(b@)));
    } else {
        assert(res@ =~= latin1(b@));
    }
    res
}

/// Whether `low[i..j]` spells a test directory name.
fn is_test_dir_name_exec(low: &Vec<char>, i: usize, j: usize) -> (res: bool)
    requires
        i <= j <= low.len(),
    ensures
        res == is_test_dir_name(low@.subrange(i as int, j as int)),
{
    let seg = slice_of(low, i, j);
    let names = [
        "test",
        "tests",
        "__tests__",
        "__snapshots__",
        "testdata",
        "testfixtures",
        "test-fixtures",
        "androidtest",
        "unittest",
        "integrationtest",
        "integrationtests",
        "integration-test",
        "integration-tests",
        "commontest",
        "jvmtest",
        "jstest",
        "nativetest",
        "iostest",
        "e2e",
        "spec",
        "specs",
    ];
    let mut found = false;
    let mut k: usize = 0;
    while k < 21
        invariant
            k <= 21,
            names@.len() == 21,
            names@[0]@ == "test"@,
            names@[1]@ == "tests"@,
            names@[2]@ == "__tests__"@,
            names@[3]@ == "__snapshots__"@,
            names@[4]@ == "testdata"@,
            names@[5]@ == "testfixtures"@,
            names@[6]@ == "test-fixtures"@,
            names@[7]@ == "androidtest"@,
            names@[8]@ == "unittest"@,
            names@[9]@ == "integrationtest"@,
            names@[10]@ == "integrationtests"@,
            names@[11]@ == "integration-test"@,
            names@[12]@ == "integration-tests"@,
            names@[13]@ == "commontest"@,
            names@[14]@ == "jvmtest"@,
            names@[15]@ == "jstest"@,
            names@[16]@ == "nativetest"@,
            names@[17]@ == "iostest"@,
            names@[18]@ == "e2e"@,
            names@[19]@ == "spec"@,
            names@[20]@ == "specs"@,
            found == exists|m: int| 0 <= m < k && seg@ == names@[m]@,
        decreases 21 - k,
    {
        let name = chars_of(names[k]);
        if name.len() == seg.len() && starts_with_exec(&seg, &name) {
            assert(seg@.subrange(0, name@.len() as int) =~= seg@);
            found = true;
        } else {
            assert(seg@ != name@ || (name.len() == seg.len() && starts_with(seg@, name@))) by {
                if seg@ == name@ {
                    assert(seg@.subrange(0, name@.len() as int) =~= seg@);
                }
            }
        }
        k += 1;
    }
    found
}

/// Classifies a path (raw bytes) as test code: a component such as `test`, `__tests__` or
/// `e2e`, or a file named like `x.test.ts`, `x_test.go`, `test_x.py` or `XTest.kt`.
pub fn is_test_path(path: &Vec<u8>) -> (res: bool)
    ensures
        res == is_test_path_spec(path@),
{
    let raw = latin1_exec(path, false);
    let low = latin1_exec(path, true);
    let n = raw.len();
    // Components.
    let mut start: usize = 0;
    let mut i: usize = 0;
    while i < n
        invariant
            n == raw.len(),
            raw.len() == low.len(),
            raw@ == latin1(path@),
            low@ == latin1(lower_bytes(path@)),
            start <= i <= n,
            start == 0 || raw@[start - 1] == '/',
            forall|k: int| start <= k < i ==> raw@[k] != '/',
            forall|a: int, b: int|
                #![trigger is_test_dir_name(low@.subrange(a, b))]
                is_component(raw@, a, b) && b < i ==> !is_test_dir_name(low@.subrange(a, b)),
        decreases n - i,
    {
        if raw[i] == '/' {
            if start < i && is_test_dir_name_exec(&low, start, i) {
                assert(is_component(raw@, start as int, i as int));
                return true;
            }
            proof {
                assert forall|a: int, b: int|
                    is_component(raw@, a, b) && b < i + 1 implies !is_test_dir_name(
                    low@.subrange(a, b),
                ) by {
                    if b == i {
                        if a < start {
                            assert(raw@[start - 1] == '/');
                        } else if a > start {
                            assert(raw@[a - 1] != '/');
                        }
                    }
                }
            }
            start = i + 1;
        }
        i += 1;
    }
    if start < n && is_test_dir_name_exec(&low, start, n) {
        assert(is_component(raw@, start as int, n as int));
        return true;
    }
    proof {
        assert forall|a: int, b: int| is_component(raw@, a, b) implies !#[trigger] is_test_dir_name(
            low@.subrange(a, b),
        ) by {
            if b == n {
                if a < start {
                    assert(raw@[start - 1] == '/');
                } else if a > start {
                    assert(raw@[a - 1] != '/');
                }
            }
        }
    }
    // File name.
    match file_name_range(&raw) {
        None => false,
        Some((s, e)) => {
            let name = slice_of(&raw, s, e);
            let lower = slice_of(&low, s, e);
            proof {
                lemma_file_name_range(raw@);
                assert(lower@ == file_name_lower(raw@, low@));
            }
            test_file_name(&name, &lower)
        },
    }
}

/// The position of the file name of `p` (see [`file_name`]).
fn file_name_range(p: &Vec<char>) -> (res: Option<(usize, usize)>)
    ensures
        match res {
            None => file_name(p@) is None,
            Some((s, e)) => file_name(p@) is Some && s == file_name_start(p@) && e - s == file_name(
                p@,
            ).unwrap().len() && s <= e <= p.len(),
        },
{
    proof {
        lemma_file_name_range(p@);
    }
    let mut end = p.len();
    assert(p@.subrange(0, end as int) =~= p@);
    loop
        invariant
            end <= p.len(),
            file_name(p@) == file_name(p@.subrange(0, end as int)),
            file_name_start(p@) == file_name_start(p@.subrange(0, end as int)),
        decreases end,
    {
        let ghost q = p@.subrange(0, end as int);
        if end == 0 {
            return None;
        }
        if p[end - 1] == '/' {
            assert(q.drop_last() =~= p@.subrange(0, end - 1));
            end = end - 1;
            continue;
        }
        // Last '/' before `end`.
        let mut k = end;
        while k > 0 && p[k - 1] != '/'
            invariant
                k <= end <= p.len(),
                forall|j: int| k <= j < end ==> p@[j] != '/',
            decreases k,
        {
            k = k - 1;
        }
        proof {
            lemma_last_index_of(q, '/');
            let li = last_index_of(q, '/');
            if k > 0 {
                assert(q[k - 1] == '/');
                assert(li == k - 1) by {
                    if li > k - 1 {
                        assert(q[li] != '/');
                    }
                }
            } else {
                assert(li == -1) by {
                    if li >= 0 {
                        assert(q[li] == '/');
                    }
                }
            }
        }
        let ghost seg = q.subrange(k as int, end as int);
        let len = end - k;
        if len == 1 && p[k] == '.' {
            assert(seg =~= "."@) by {
                reveal_strlit(".");
            }
            if k == 0 {
                return None;
            }
            assert(q.subrange(0, k - 1) =~= p@.subrange(0, k - 1));
            end = k - 1;
            continue;
        }
        assert(seg != "."@) by {
            reveal_strlit(".");
            if seg == "."@ {
                assert(seg.len() == 1);
                assert(seg[0] == p@[k as int]);
            }
        }
        if len == 2 && p[k] == '.' && p[k + 1] == '.' {
            assert(seg =~= ".."@) by {
                reveal_strlit("..");
            }
            return None;
        }
        assert(seg != ".."@) by {
            reveal_strlit("..");
            if seg == ".."@ {
                assert(seg.len() == 2);
                assert(seg[0] == p@[k as int]);
                assert(seg[1] == p@[k + 1]);
            }
        }
        return Some((k, end));
    }
}

/// The file-name rules for test code (see [`is_test_file_name`]).
fn test_file_name(name: &Vec<char>, lower: &Vec<char>) -> (res: bool)
    ensures
        res == is_test_file_name(name@, lower@),
{
    let stem = file_stem_exec(name);
    contains_exec(lower, &chars_of(".test.")) || contains_exec(lower, &chars_of(".spec."))
        || ends_with_exec(lower, &chars_of("_test.go")) || (ends_with_exec(
        lower,
        &chars_of(".py"),
    ) && (starts_with_exec(lower, &chars_of("test_")) || ends_with_exec(
        lower,
        &chars_of("_test.py"),
    ))) || ((ends_with_exec(lower, &chars_of(".java")) || ends_with_exec(
        lower,
        &chars_of(".kt"),
    ) || ends_with_exec(lower, &chars_of(".scala")) || ends_with_exec(
        lower,
        &chars_of(".groovy"),
    )) && (ends_with_exec(&stem, &chars_of("Test")) || ends_with_exec(&stem, &chars_of("Tests"))
        || ends_with_exec(&stem, &chars_of("Spec"))))
}

/// The stem of a file name (see [`file_stem`]).
fn file_stem_exec(n: &Vec<char>) -> (res: Vec<char>)
    ensures
        res@ == file_stem(n@),
{
    let mut k = n.len();
    while k > 0 && n[k - 1] != '.'
        invariant
            k <= n.len(),
            forall|j: int| k <= j < n.len() ==> n@[j] != '.',
        decreases k,
    {
        k = k - 1;
    }
    proof {
        lemma_last_index_of(n@, '.');
        let li = last_index_of(n@, '.');
        if k > 0 {
            assert(li == k - 1) by {
                if li > k - 1 {
                    assert(n@[li] != '.');
                }
            }
        } else {
            assert(li == -1) by {
                if li >= 0 {
                    assert(n@[li] == '.');
                }
            }
        }
    }
    if k <= 1 {
        slice_of(n, 0, n.len())
    } else {
        slice_of(n, 0, k - 1)
    }
}


impl Change {
    /// Test code: the path is a test path and, for a rename or copy, so was the old path (a move
    /// across the production/test boundary stays visible for review).
    pub fn is_test(&self) -> (res: bool)
        ensures
            res == (is_test_path_spec(self.path@) && match self.old_path {
                Some(p) => is_test_path_spec(p@),
                None => true,
            }),
    {
        is_test_path(&self.path) && match &self.old_path {
            Some(p) => is_test_path(p),
            None => true,
        }
    }

    /// The list label: the cleaned path, preceded by the cleaned old path and `" -> "` for a
    /// rename or copy.
    pub fn label(&self) -> (res: String)
        ensures
            res@ == change_label(self@),
    {
        let path = clean(lossy_string(&self.path).as_str());
        match &self.old_path {
            Some(old) => {
                let mut res = clean(lossy_string(old).as_str());
                push_str(&mut res, " -> ");
                push_str(&mut res, path.as_str());
                res
            },
            None => path,
        }
    }
}

/// The label of a change (see [`Change::label`]).
pub open spec fn change_label(c: (char, Seq<u8>, Option<Seq<u8>>)) -> Seq<char> {
    let path = clean_spec(lossy_utf8(c.1));
    match c.2 {
        Some(old) => clean_spec(lossy_utf8(old)) + " -> "@ + path,
        None => path,
    }
}

/// The characters that `String::from_utf8_lossy` decodes from `b`.
pub uninterp spec fn lossy_utf8(b: Seq<u8>) -> Seq<char>;

/// `String::from_utf8_lossy`: decodes UTF-8, each invalid sequence becoming U+FFFD.
/// Stated: valid UTF-8 decodes exactly; otherwise the result is only named.
#[verifier::external_body]
pub(crate) fn lossy_string(b: &Vec<u8>) -> (res: String)
    ensures
        res@ == lossy_utf8(b@),
        valid_utf8(b@) ==> res@ == decode_utf8(b@),
{
    String::from_utf8_lossy(b.as_slice()).into_owned()
}

// ---------------------------------------------------------------------------
// Cleaning text for the terminal
/// The Unicode `Cc` category, which `char::is_control` tests.
pub open spec fn is_cc(c: char) -> bool {
    (c as u32) <= 0x1f || (0x7f <= (c as u32) && (c as u32) <= 0x9f)
}

/// The lower-case hexadecimal digits of `n` without leading zeros.
pub open spec fn hex(n: nat) -> Seq<char>
    decreases n,
{
    if n < 16 {
        seq![hex_digit(n)]
    } else {
        hex(n / 16).push(hex_digit(n % 16))
    }
}

/// The lower-case hexadecimal digit for `d < 16`.
pub open spec fn hex_digit(d: nat) -> char {
    if d < 10 {
        ((d + 48) as u32) as char
    } else {
        ((d + 87) as u32) as char
    }
}

/// `char::escape_default` of a control character: `\n`, `\r`, `\t`, or `\u{..}`.
pub open spec fn escape_control(c: char) -> Seq<char> {
    if c == '\n' {
        "\\n"@
    } else if c == '\r' {
        "\\r"@
    } else if c == '\t' {
        "\\t"@
    } else {
        "\\u{"@ + hex(c as nat) + "}"@
    }
}

/// The lower-case hexadecimal digits of `n` (see [`hex`]).
fn hex_digits(n: u32) -> (res: Vec<char>)
    ensures
        res@ == hex(n as nat),
    decreases n,
{
    let d = (n % 16) as u8;
    let c = if d < 10 {
        (d + 48) as char
    } else {
        (d + 87) as char
    };
    assert(c == hex_digit((n % 16) as nat));
    if n < 16 {
        let mut v: Vec<char> = Vec::new();
        v.push(c);
        assert(v@ =~= seq![c]);
        v
    } else {
        let mut v = hex_digits(n / 16);
        v.push(c);
        v
    }
}

/// The escape of a control character, as `char::escape_default` writes it.
fn escape_control_exec(c: char) -> (res: String)
    requires
        is_cc(c),
    ensures
        res@ == escape_control(c),
{
    if c == '\n' {
        String::from_str("\\n")
    } else if c == '\r' {
        String::from_str("\\r")
    } else if c == '\t' {
        String::from_str("\\t")
    } else {
        let mut res = String::from_str("\\u{");
        let digits = hex_digits(c as u32);
        push_chars(&mut res, &digits);
        push_str(&mut res, "}");
        res
    }
}

/// One character made safe for the terminal: a tab becomes four spaces, another control
/// character its escape, anything else itself.
pub open spec fn clean_char(c: char) -> Seq<char> {
    if c == '\t' {
        "    "@
    } else if is_cc(c) {
        escape_control(c)
    } else {
        seq![c]
    }
}

/// Repository text made safe for the terminal, character by character.
pub open spec fn clean_spec(s: Seq<char>) -> Seq<char>
    decreases s.len(),
{
    if s.len() == 0 {
        Seq::empty()
    } else {
        clean_spec(s.drop_last()) + clean_char(s.last())
    }
}

/// No character of `s` is a control character.
pub open spec fn no_controls(s: Seq<char>) -> bool {
    forall|k: int| 0 <= k < s.len() ==> !is_cc(#[trigger] s[k])
}

proof fn lemma_hex_no_controls(n: nat)
    ensures
        no_controls(hex(n)),
    decreases n,
{
    if n >= 16 {
        lemma_hex_no_controls(n / 16);
        let h = hex(n / 16);
        assert forall|k: int| 0 <= k < hex(n).len() implies !is_cc(#[trigger] hex(n)[k]) by {
            if k < h.len() {
                assert(hex(n)[k] == h[k]);
            }
        }
    }
}

proof fn lemma_clean_char_no_controls(c: char)
    ensures
        no_controls(clean_char(c)),
{
    reveal_strlit("    ");
    reveal_strlit("\\n");
    reveal_strlit("\\r");
    reveal_strlit("\\t");
    reveal_strlit("\\u{");
    reveal_strlit("}");
    if c != '\t' && is_cc(c) && c != '\n' && c != '\r' {
        lemma_hex_no_controls(c as nat);
        let e = "\\u{"@ + hex(c as nat) + "}"@;
        assert forall|k: int| 0 <= k < e.len() implies !is_cc(#[trigger] e[k]) by {
            if 3 <= k < 3 + hex(c as nat).len() {
                assert(e[k] == hex(c as nat)[k - 3]);
            }
        }
    }
}

/// Cleaned text holds no control character, so repository content can never act as a
/// terminal escape sequence.
pub proof fn law_cleaned_text_has_no_controls(s: Seq<char>)
    ensures
        no_controls(clean_spec(s)),
    decreases s.len(),
{
    if s.len() > 0 {
        law_cleaned_text_has_no_controls(s.drop_last());
        lemma_clean_char_no_controls(s.last());
        let a = clean_spec(s.drop_last());
        let b = clean_char(s.last());
        assert forall|k: int| 0 <= k < (a + b).len() implies !is_cc(#[trigger] (a + b)[k]) by {
            if k < a.len() {
                assert((a + b)[k] == a[k]);
            } else {
                assert((a + b)[k] == b[k - a.len()]);
            }
        }
    }
}

/// Treats repository content as text, never as terminal escape sequences.
pub fn clean(text: &str) -> (res: String)
    ensures
        res@ == clean_spec(text@),
{
    let cs = chars_of(text);
    clean_chars(&cs)
}

/// [`clean`] on a character vector.
pub fn clean_chars(cs: &Vec<char>) -> (res: String)
    ensures
        res@ == clean_spec(cs@),
{
    let mut res = String::new();
    for i in 0..cs.len()
        invariant
            res@ == clean_spec(cs@.take(i as int)),
    {
        let c = cs[i];
        let u = c as u32;
        if c == '\t' {
            push_str(&mut res, "    ");
        } else if u <= 0x1f || (0x7f <= u && u <= 0x9f) {
            let e = escape_control_exec(c);
            push_str(&mut res, e.as_str());
        } else {
            push_char(&mut res, c);
        }
        assert(cs@.take(i + 1).drop_last() =~= cs@.take(i as int));
    }
    assert(cs@.take(cs.len() as int) =~= cs@);
    res
}

// ---------------------------------------------------------------------------
// `git diff --name-status -z`
/// Why a `--name-status -z` listing could not be read.
#[derive(Clone, Copy, Debug, PartialEq, Eq)]
pub enum ChangesError {
    EmptyStatus,
    MissingPath,
    MissingDestination,
}

impl ChangesError {
    /// The error message.
    pub fn message(&self) -> (res: String)
        ensures
            res@ == match *self {
                ChangesError::EmptyStatus => "Empty git diff status"@,
                ChangesError::MissingPath => "Missing git diff path"@,
                ChangesError::MissingDestination => "Missing rename destination"@,
            },
    {
        match self {
            ChangesError::EmptyStatus => String::from_str("Empty git diff status"),
            ChangesError::MissingPath => String::from_str("Missing git diff path"),
            ChangesError::MissingDestination => String::from_str("Missing rename destination"),
        }
    }
}

/// The pieces of `b` between NUL bytes, as `<[u8]>::split` yields them (one more piece than
/// there are NUL bytes).
pub open spec fn split_nul(b: Seq<u8>) -> Seq<Seq<u8>>
    decreases b.len(),
{
    let k = first_index_of(b, 0u8);
    proof {
        lemma_first_index_of(b, 0u8);
    }
    if k < 0 {
        seq![b]
    } else {
        seq![b.subrange(0, k)] + split_nul(b.subrange(k + 1, b.len() as int))
    }
}

/// The changes listed by the fields of a `--name-status -z` listing: a status field, a path,
/// and for a rename (`R`) or copy (`C`) the destination path after the source path. A final
/// empty field ends the listing.
pub open spec fn changes_from_fields(f: Seq<Seq<u8>>) -> Result<
    Seq<(char, Seq<u8>, Option<Seq<u8>>)>,
    ChangesError,
>
    decreases f.len(),
{
    if f.len() == 0 || (f[0].len() == 0 && f.len() == 1) {
        Ok(Seq::empty())
    } else if f[0].len() == 0 {
        Err(ChangesError::EmptyStatus)
    } else if f.len() < 2 || f[1].len() == 0 {
        Err(ChangesError::MissingPath)
    } else if f[0][0] == 82u8 || f[0][0] == 67u8 {
        if f.len() < 3 || f[2].len() == 0 {
            Err(ChangesError::MissingDestination)
        } else {
            match changes_from_fields(f.skip(3)) {
                Ok(rest) => Ok(seq![(f[0][0] as char, f[2], Some(f[1]))] + rest),
                Err(e) => Err(e),
            }
        }
    } else {
        match changes_from_fields(f.skip(2)) {
            Ok(rest) => Ok(seq![(f[0][0] as char, f[1], None)] + rest),
            Err(e) => Err(e),
        }
    }
}

/// The changes of a `git diff --name-status -z` listing.
pub open spec fn parse_changes_spec(b: Seq<u8>) -> Result<
    Seq<(char, Seq<u8>, Option<Seq<u8>>)>,
    ChangesError,
> {
    changes_from_fields(split_nul(b))
}

/// The views of a list of changes.
pub type ChangeViews = Seq<(char, Seq<u8>, Option<Seq<u8>>)>;

/// The views of a list of changes.
pub open spec fn changes_view(v: Seq<Change>) -> Seq<(char, Seq<u8>, Option<Seq<u8>>)> {
    v.map_values(|c: Change| c@)
}

/// The NUL-separated pieces of `b`.
fn split_nul_exec(b: &Vec<u8>) -> (res: Vec<Vec<u8>>)
    ensures
        res@.len() == split_nul(b@).len(),
        forall|i: int| 0 <= i < res@.len() ==> #[trigger] res@[i]@ == split_nul(b@)[i],
{
    let mut res: Vec<Vec<u8>> = Vec::new();
    let mut start: usize = 0;
    assert(b@.subrange(0, b.len() as int) =~= b@);
    loop
        invariant
            start <= b.len(),
            res@.len() + split_nul(b@.subrange(start as int, b.len() as int)).len() == split_nul(
                b@,
            ).len(),
            forall|i: int| 0 <= i < res@.len() ==> #[trigger] res@[i]@ == split_nul(b@)[i],
            forall|i: int|
                0 <= i < split_nul(b@.subrange(start as int, b.len() as int)).len() ==> split_nul(
                    b@.subrange(start as int, b.len() as int),
                )[i] == split_nul(b@)[res@.len() + i],
        decreases b.len() - start,
    {
        let ghost rest = b@.subrange(start as int, b.len() as int);
        let mut k = start;
        while k < b.len() && b[k] != 0
            invariant
                start <= k <= b.len(),
                forall|j: int| start <= j < k ==> b@[j] != 0u8,
            decreases b.len() - k,
        {
            k += 1;
        }
        proof {
            lemma_first_index_of(rest, 0u8);
            let fi = first_index_of(rest, 0u8);
            if k < b.len() {
                assert(rest[k - start] == 0u8);
                assert(fi == k - start) by {
                    if fi < k - start && fi >= 0 {
                        assert(rest[fi] == b@[start + fi]);
                    }
                    if fi < 0 {
                        assert(rest[k - start] != 0u8);
                    }
                }
                assert(rest.subrange(0, k - start) =~= b@.subrange(start as int, k as int));
                assert(rest.subrange(k - start + 1, rest.len() as int) =~= b@.subrange(
                    k + 1,
                    b.len() as int,
                ));
            } else {
                assert(fi == -1) by {
                    if fi >= 0 {
                        assert(rest[fi] == b@[start + fi]);
                    }
                }
            }
        }
        let piece = slice_of(b, start, k);
        res.push(piece);
        if k == b.len() {
            proof {
                assert(split_nul(rest) == seq![rest]);
                assert(rest =~= b@.subrange(start as int, k as int));
                assert(split_nul(rest)[0] == split_nul(b@)[(res@.len() - 1) + 0]);
                assert forall|i: int| 0 <= i < res@.len() implies #[trigger] res@[i]@ == split_nul(
                    b@,
                )[i] by {}
            }
            return res;
        }
        proof {
            let nrest = b@.subrange(k + 1, b.len() as int);
            assert(split_nul(rest) == seq![b@.subrange(start as int, k as int)] + split_nul(nrest));
            assert(split_nul(rest)[0] == split_nul(b@)[(res@.len() - 1) + 0]);
            assert forall|i: int| 0 <= i < split_nul(nrest).len() implies split_nul(nrest)[i]
                == split_nul(b@)[res@.len() + i] by {
                assert(split_nul(nrest)[i] == split_nul(rest)[i + 1]);
            }
        }
        start = k + 1;
    }
}

/// Reads a `git diff --name-status -z` listing.
pub fn parse_changes(bytes: &Vec<u8>) -> (res: Result<Vec<Change>, ChangesError>)
    ensures
        match (res, parse_changes_spec(bytes@)) {
            (Ok(v), Ok(s)) => changes_view(v@) == s,
            (Err(e), Err(f)) => e == f,
            _ => false,
        },
{
    let fields = split_nul_exec(bytes);
    let ghost f = split_nul(bytes@);
    assert(parse_changes_spec(bytes@) == changes_from_fields(f));
    let mut changes: Vec<Change> = Vec::new();
    let mut i: usize = 0;
    assert(f.skip(0) =~= f);
    loop
        invariant
            i <= fields@.len(),
            parse_changes_spec(bytes@) == changes_from_fields(f),
            fields@.len() == f.len(),
            forall|k: int| 0 <= k < fields@.len() ==> #[trigger] fields@[k]@ == f[k],
            match changes_from_fields(f) {
                Ok(all) => match changes_from_fields(f.skip(i as int)) {
                    Ok(rest) => all == changes_view(changes@) + rest,
                    Err(_) => false,
                },
                Err(e) => changes_from_fields(f.skip(i as int)) == Err::<
                    Seq<(char, Seq<u8>, Option<Seq<u8>>)>,
                    ChangesError,
                >(e),
            },
        decreases fields@.len() - i,
    {
        let ghost g = f.skip(i as int);
        assert(g.len() == fields.len() - i);
        if i < fields.len() {
            assert(g[0] == f[i as int]);
            assert(fields@[i as int]@ == f[i as int]);
        }
        if i == fields.len() || (fields[i].len() == 0 && i + 1 == fields.len()) {
            proof {
                assert(changes_from_fields(g) == Ok::<
                    Seq<(char, Seq<u8>, Option<Seq<u8>>)>,
                    ChangesError,
                >(Seq::empty()));
                if let Ok(all) = changes_from_fields(f) {
                    assert(changes_view(changes@) + Seq::empty() =~= changes_view(changes@));
                    assert(all == changes_view(changes@));
                }
            }
            return Ok(changes);
        }
        if fields[i].len() == 0 {
            assert(changes_from_fields(g) == Err::<ChangeViews, ChangesError>(
                ChangesError::EmptyStatus,
            ));
            return Err(ChangesError::EmptyStatus);
        }
        if i + 1 >= fields.len() || fields[i + 1].len() == 0 {
            proof {
                if i + 1 < fields.len() {
                    assert(g[1] == f[i + 1]);
                }
                assert(changes_from_fields(g) == Err::<ChangeViews, ChangesError>(
                    ChangesError::MissingPath,
                ));
            }
            return Err(ChangesError::MissingPath);
        }
        assert(g[1] == f[i + 1]);
        let status = fields[i][0];
        if status == 82u8 || status == 67u8 {
            if i + 2 >= fields.len() || fields[i + 2].len() == 0 {
                proof {
                    if i + 2 < fields.len() {
                        assert(g[2] == f[i + 2]);
                    }
                    assert(changes_from_fields(g) == Err::<ChangeViews, ChangesError>(
                        ChangesError::MissingDestination,
                    ));
                }
                return Err(ChangesError::MissingDestination);
            }
            assert(g[2] == f[i + 2]);
            let c = Change {
                status: status as char,
                path: copy_bytes(&fields[i + 2]),
                old_path: Some(copy_bytes(&fields[i + 1])),
            };
            let ghost before = changes@;
            changes.push(c);
            proof {
                assert(g.skip(3) =~= f.skip(i + 3));
                assert(changes_view(changes@) =~= changes_view(before).push(c@));
                if let Ok(all) = changes_from_fields(f) {
                    let rest = changes_from_fields(f.skip(i + 3)).unwrap();
                    assert(all == changes_view(before) + (seq![c@] + rest));
                    assert(changes_view(before) + (seq![c@] + rest) =~= changes_view(changes@)
                        + rest);
                }
            }
            i = i + 3;
        } else {
            let c = Change { status: status as char, path: copy_bytes(&fields[i + 1]), old_path: None };
            let ghost before = changes@;
            changes.push(c);
            proof {
                assert(g.skip(2) =~= f.skip(i + 2));
                assert(changes_view(changes@) =~= changes_view(before).push(c@));
                if let Ok(all) = changes_from_fields(f) {
                    let rest = changes_from_fields(f.skip(i + 2)).unwrap();
                    assert(all == changes_view(before) + (seq![c@] + rest));
                    assert(changes_view(before) + (seq![c@] + rest) =~= changes_view(changes@)
                        + rest);
                }
            }
            i = i + 2;
        }
    }
}


// ---------------------------------------------------------------------------
// Patches
/// The kind of a patch line.
#[derive(Clone, Copy, PartialEq, Eq, Debug, Structural)]
pub enum LineKind {
    Header,
    Hunk,
    Context,
    Added,
    Removed,
}

/// One line of a patch: its cleaned text, its old and new line numbers, and its kind.
#[derive(Clone, Debug, PartialEq, Eq)]
pub struct DiffLine {
    pub text: String,
    pub old: Option<usize>,
    pub new: Option<usize>,
    pub kind: LineKind,
}

/// A patch line in the model: text, old and new line numbers, kind.
pub type DiffLineSpec = (Seq<char>, Option<int>, Option<int>, LineKind);

/// An optional line number as an integer.
pub open spec fn opt_int(n: Option<usize>) -> Option<int> {
    match n {
        Some(x) => Some(x as int),
        None => None,
    }
}

impl View for DiffLine {
    type V = DiffLineSpec;

    open spec fn view(&self) -> DiffLineSpec {
        (self.text@, opt_int(self.old), opt_int(self.new), self.kind)
    }
}

/// The line a hunk header field such as `-7,2` starts at: the part after the sign and before
/// any `','`, as a decimal number.
pub open spec fn hunk_start(field: Seq<char>) -> Option<usize> {
    if field.len() > 0 && (field[0] as u32) < 0x80 {
        let v = field.drop_first();
        let k = first_index_of(v, ',');
        if k < 0 {
            parse_usize_spec(v)
        } else {
            parse_usize_spec(v.subrange(0, k))
        }
    } else {
        None
    }
}

/// The state of patch numbering: the next old line, the next new line, inside a hunk.
pub type PatchState = (int, int, bool);

/// One step of patch numbering: a `diff --git` line leaves any hunk, a `@@` line with two
/// readable starts enters one, and inside a hunk `+`, `-` and `' '` lines take and advance the
/// new line, the old line, or both.
pub open spec fn patch_step(st: PatchState, line: Seq<char>) -> (PatchState, DiffLineSpec) {
    let text = clean_spec(line);
    if starts_with(line, "diff --git "@) {
        ((st.0, st.1, false), (text, None, None, LineKind::Header))
    } else if starts_with(line, "@@ "@) {
        let fs = fields_of(line);
        let a = if fs.len() > 1 {
            hunk_start(fs[1])
        } else {
            None
        };
        let b = if fs.len() > 2 {
            hunk_start(fs[2])
        } else {
            None
        };
        if a is Some && b is Some {
            ((a.unwrap() as int, b.unwrap() as int, true), (text, None, None, LineKind::Hunk))
        } else {
            (st, (text, None, None, LineKind::Hunk))
        }
    } else if st.2 && line.len() > 0 && line[0] == '+' {
        ((st.0, st.1 + 1, true), (text, None, Some(st.1), LineKind::Added))
    } else if st.2 && line.len() > 0 && line[0] == '-' {
        ((st.0 + 1, st.1, true), (text, Some(st.0), None, LineKind::Removed))
    } else if st.2 && line.len() > 0 && line[0] == ' ' {
        ((st.0 + 1, st.1 + 1, true), (text, Some(st.0), Some(st.1), LineKind::Context))
    } else {
        (st, (text, None, None, LineKind::Header))
    }
}

/// The patch lines read from `lines`, starting in state `st`.
pub open spec fn patch_lines(st: PatchState, lines: Seq<Seq<char>>) -> Seq<DiffLineSpec>
    decreases lines.len(),
{
    if lines.len() == 0 {
        Seq::empty()
    } else {
        let (next, d) = patch_step(st, lines[0]);
        seq![d] + patch_lines(next, lines.drop_first())
    }
}

/// The lines of a unified patch.
pub open spec fn parse_patch_spec(patch: Seq<char>) -> Seq<DiffLineSpec> {
    patch_lines((0, 0, false), lines_of(patch))
}

/// The numbering state after the first `k` of `lines`.
pub open spec fn state_after(st: PatchState, lines: Seq<Seq<char>>, k: int) -> PatchState
    decreases k,
{
    if k <= 0 || lines.len() == 0 {
        st
    } else {
        state_after(patch_step(st, lines[0]).0, lines.drop_first(), k - 1)
    }
}

/// Patch line `k` is read in the state the lines before it leave.
proof fn lemma_patch_lines_at(st: PatchState, lines: Seq<Seq<char>>, k: int)
    requires
        0 <= k < lines.len(),
    ensures
        patch_lines(st, lines).len() == lines.len(),
        patch_lines(st, lines)[k] == patch_step(state_after(st, lines, k), lines[k]).1,
        state_after(st, lines, k + 1) == patch_step(state_after(st, lines, k), lines[k]).0,
    decreases k,
{
    lemma_patch_lines_len(st, lines);
    let next = patch_step(st, lines[0]).0;
    if k > 0 {
        lemma_patch_lines_at(next, lines.drop_first(), k - 1);
        assert(state_after(st, lines, k) == state_after(next, lines.drop_first(), k - 1));
        assert(state_after(st, lines, k + 1) == state_after(next, lines.drop_first(), k));
        assert(lines.drop_first()[k - 1] == lines[k]);
    } else {
        assert(state_after(st, lines, 1) == state_after(next, lines.drop_first(), 0));
    }
}

proof fn lemma_patch_lines_len(st: PatchState, lines: Seq<Seq<char>>)
    ensures
        patch_lines(st, lines).len() == lines.len(),
    decreases lines.len(),
{
    if lines.len() > 0 {
        lemma_patch_lines_len(patch_step(st, lines[0]).0, lines.drop_first());
    }
}

/// A patch reads as one line per line of text, in order, each line's text cleaned for the
/// terminal.
pub proof fn law_patch_keeps_every_line(patch: Seq<char>)
    ensures
        parse_patch_spec(patch).len() == lines_of(patch).len(),
        forall|i: int|
            0 <= i < lines_of(patch).len() ==> (#[trigger] parse_patch_spec(patch)[i]).0 == clean_spec(
                lines_of(patch)[i],
            ),
{
    let ls = lines_of(patch);
    lemma_patch_lines_len((0, 0, false), ls);
    assert forall|i: int| 0 <= i < ls.len() implies (#[trigger] parse_patch_spec(patch)[i]).0
        == clean_spec(ls[i]) by {
        lemma_patch_lines_at((0, 0, false), ls, i);
    }
}

/// A line that opens a hunk the numbering can read: `@@ ` with two readable starts.
pub open spec fn opens_hunk(line: Seq<char>) -> bool {
    let fs = fields_of(line);
    &&& !starts_with(line, "diff --git "@)
    &&& starts_with(line, "@@ "@)
    &&& fs.len() > 2
    &&& hunk_start(fs[1]) is Some
    &&& hunk_start(fs[2]) is Some
}

/// Line `i` lies inside a hunk: an earlier line opens one, and no `diff --git` line comes
/// between them.
pub open spec fn in_hunk(ls: Seq<Seq<char>>, i: int) -> bool {
    exists|j: int|
        0 <= j < i && #[trigger] opens_hunk(ls[j]) && forall|m: int| j < m < i ==> !starts_with(
            #[trigger] ls[m],
            "diff --git "@,
        )
}

/// The numbering is inside a hunk exactly where a line is (see [`in_hunk`]).
proof fn lemma_state_in_hunk(ls: Seq<Seq<char>>, i: int)
    requires
        0 <= i <= ls.len(),
    ensures
        state_after((0, 0, false), ls, i).2 == in_hunk(ls, i),
    decreases i,
{
    let st0: PatchState = (0, 0, false);
    if i > 0 {
        lemma_state_in_hunk(ls, i - 1);
        lemma_patch_lines_at(st0, ls, i - 1);
        let line = ls[i - 1];
        if starts_with(line, "diff --git "@) {
            if in_hunk(ls, i) {
                let j = choose|j: int|
                    0 <= j < i && #[trigger] opens_hunk(ls[j]) && forall|m: int| j < m < i ==> !starts_with(
                        #[trigger] ls[m],
                        "diff --git "@,
                    );
                if j < i - 1 {
                    assert(!starts_with(ls[i - 1], "diff --git "@));
                }
            }
        } else if opens_hunk(line) {
            assert(opens_hunk(ls[i - 1]));
        } else {
            if in_hunk(ls, i - 1) {
                let j = choose|j: int|
                    0 <= j < i - 1 && #[trigger] opens_hunk(ls[j]) && forall|m: int| j < m < i - 1
                        ==> !starts_with(#[trigger] ls[m], "diff --git "@);
                assert(forall|m: int| j < m < i ==> !starts_with(#[trigger] ls[m], "diff --git "@));
            }
            if in_hunk(ls, i) {
                let j = choose|j: int|
                    0 <= j < i && #[trigger] opens_hunk(ls[j]) && forall|m: int| j < m < i ==> !starts_with(
                        #[trigger] ls[m],
                        "diff --git "@,
                    );
                assert(j != i - 1);
                assert(forall|m: int| j < m < i - 1 ==> !starts_with(#[trigger] ls[m], "diff --git "@));
            }
        }
    } else {
        assert(!in_hunk(ls, 0));
    }
}

/// Outside hunks nothing is numbered: a line before the first hunk the numbering can read, or
/// after a `diff --git` line and before the next such hunk, is a header (or an unreadable hunk
/// line) with no line numbers.
pub proof fn law_lines_outside_hunks_are_headers(patch: Seq<char>, i: int)
    requires
        0 <= i < lines_of(patch).len(),
        !in_hunk(lines_of(patch), i),
    ensures
        parse_patch_spec(patch)[i].1 is None,
        parse_patch_spec(patch)[i].2 is None,
        parse_patch_spec(patch)[i].3 == LineKind::Header || parse_patch_spec(patch)[i].3 == LineKind::Hunk,
{
    let ls = lines_of(patch);
    lemma_state_in_hunk(ls, i);
    lemma_patch_lines_at((0, 0, false), ls, i);
}

/// Inside a hunk the old side is numbered one line after another: two lines numbered on the
/// old side, with no hunk header and no other old-side line between them, carry consecutive
/// numbers. The same holds of the new side.
pub proof fn law_hunk_lines_are_numbered_consecutively(patch: Seq<char>, i: int, j: int)
    requires
        0 <= i < j < lines_of(patch).len(),
        forall|m: int| i < m < j ==> !starts_with(#[trigger] lines_of(patch)[m], "@@ "@),
    ensures
        ({
            let p = parse_patch_spec(patch);
            &&& (p[i].1 is Some && p[j].1 is Some && forall|m: int| i < m < j ==> (#[trigger] p[m]).1 is None)
                ==> p[j].1 == Some(p[i].1.unwrap() + 1)
            &&& (p[i].2 is Some && p[j].2 is Some && forall|m: int| i < m < j ==> (#[trigger] p[m]).2 is None)
                ==> p[j].2 == Some(p[i].2.unwrap() + 1)
        }),
{
    let ls = lines_of(patch);
    let p = parse_patch_spec(patch);
    let st0: PatchState = (0, 0, false);
    lemma_patch_lines_at(st0, ls, i);
    lemma_patch_lines_at(st0, ls, j);
    if p[i].1 is Some && p[j].1 is Some && forall|m: int| i < m < j ==> (#[trigger] p[m]).1 is None {
        lemma_side_kept(st0, ls, i + 1, j, true);
    }
    if p[i].2 is Some && p[j].2 is Some && forall|m: int| i < m < j ==> (#[trigger] p[m]).2 is None {
        lemma_side_kept(st0, ls, i + 1, j, false);
    }
}

/// Lines between `from` and `to` that are neither hunk headers nor numbered on a side leave
/// that side's next number as it was.
proof fn lemma_side_kept(st: PatchState, ls: Seq<Seq<char>>, from: int, to: int, old_side: bool)
    requires
        0 < from <= to < ls.len(),
        forall|m: int| from <= m < to ==> !starts_with(#[trigger] ls[m], "@@ "@),
        forall|m: int|
            from <= m < to ==> if old_side {
                (#[trigger] patch_lines(st, ls)[m]).1 is None
            } else {
                patch_lines(st, ls)[m].2 is None
            },
    ensures
        old_side ==> state_after(st, ls, to).0 == state_after(st, ls, from).0,
        !old_side ==> state_after(st, ls, to).1 == state_after(st, ls, from).1,
    decreases to - from,
{
    if from < to {
        lemma_patch_lines_at(st, ls, from);
        assert(!starts_with(ls[from], "@@ "@));
        if old_side {
            assert(patch_lines(st, ls)[from].1 is None);
        } else {
            assert(patch_lines(st, ls)[from].2 is None);
        }
        lemma_side_kept(st, ls, from + 1, to, old_side);
    }
}

/// Every line number of the patch fits below `usize::MAX`, so numbering never overflows.
pub open spec fn patch_numbers_fit(patch: Seq<char>) -> bool {
    let p = parse_patch_spec(patch);
    forall|i: int|
        0 <= i < p.len() ==> (#[trigger] p[i]).1.unwrap_or(0) < usize::MAX && p[i].2.unwrap_or(0)
            < usize::MAX
}

/// [`hunk_start`] on a field.
fn hunk_start_exec(field: &Vec<char>) -> (res: Option<usize>)
    ensures
        res == hunk_start(field@),
{
    if field.len() == 0 || (field[0] as u32) >= 0x80 {
        return None;
    }
    let v = tail_of(field, 1);
    assert(v@ =~= field@.drop_first());
    let k = find_from(&v, 0, ',');
    proof {
        lemma_first_index_shift(v@, 0, ',', k as int);
        assert(v@.subrange(0, v@.len() as int) =~= v@);
    }
    let num = slice_of(&v, 0, k);
    if k == v.len() {
        assert(num@ =~= v@);
    }
    parse_usize(&num)
}

/// Reads a unified patch, numbering its lines; `None` when a line number would pass
/// `usize::MAX`.
pub fn try_parse_patch(patch: &str) -> (res: Option<Vec<DiffLine>>)
    ensures
        res is Some <==> patch_numbers_fit(patch@),
        res matches Some(v) ==> v@.map_values(|d: DiffLine| d@) == parse_patch_spec(patch@),
{
    let cs = chars_of(patch);
    let ls = lines(&cs);
    let ghost l = lines_of(patch@);
    let ghost all = parse_patch_spec(patch@);
    let mut out: Vec<DiffLine> = Vec::new();
    let mut old: usize = 0;
    let mut new: usize = 0;
    let mut in_hunk = false;
    let mut i: usize = 0;
    assert(l.skip(0) =~= l);
    while i < ls.len()
        invariant
            i <= ls@.len(),
            ls@.len() == l.len(),
            l == lines_of(patch@),
            all == parse_patch_spec(patch@),
            forall|k: int| 0 <= k < ls@.len() ==> #[trigger] ls@[k]@ == l[k],
            out@.len() == i,
            all == out@.map_values(|d: DiffLine| d@) + patch_lines(
                (old as int, new as int, in_hunk),
                l.skip(i as int),
            ),
            forall|k: int|
                0 <= k < i ==> (#[trigger] all[k]).1.unwrap_or(0) < usize::MAX && all[k].2.unwrap_or(
                    0,
                ) < usize::MAX,
        decreases ls@.len() - i,
    {
        let line = &ls[i];
        let ghost st: PatchState = (old as int, new as int, in_hunk);
        let ghost rest = l.skip(i as int);
        let ghost step = patch_step(st, rest[0]);
        assert(rest[0] == line@);
        assert(rest.drop_first() =~= l.skip(i + 1));
        let ghost prefix = out@.map_values(|d: DiffLine| d@);
        assert(all == prefix + (seq![step.1] + patch_lines(step.0, l.skip(i + 1))));
        assert(all[i as int] == step.1) by {
            assert((prefix + (seq![step.1] + patch_lines(step.0, l.skip(i + 1))))[i as int]
                == step.1);
        }
        let text = clean_chars(line);
        let mut d = DiffLine { text, old: None, new: None, kind: LineKind::Header };
        if starts_with_exec(line, &chars_of("diff --git ")) {
            in_hunk = false;
        } else if starts_with_exec(line, &chars_of("@@ ")) {
            let fs = fields_from(line, 0);
            assert(line@.subrange(0, line@.len() as int) =~= line@);
            let a = if fs.len() > 1 {
                hunk_start_exec(&fs[1])
            } else {
                None
            };
            let b = if fs.len() > 2 {
                hunk_start_exec(&fs[2])
            } else {
                None
            };
            match (a, b) {
                (Some(a), Some(b)) => {
                    old = a;
                    new = b;
                    in_hunk = true;
                },
                _ => {},
            }
            d.kind = LineKind::Hunk;
        } else if in_hunk && line.len() > 0 && line[0] == '+' {
            if new == usize::MAX {
                return None;
            }
            d.kind = LineKind::Added;
            d.new = Some(new);
            new = new + 1;
        } else if in_hunk && line.len() > 0 && line[0] == '-' {
            if old == usize::MAX {
                return None;
            }
            d.kind = LineKind::Removed;
            d.old = Some(old);
            old = old + 1;
        } else if in_hunk && line.len() > 0 && line[0] == ' ' {
            if old == usize::MAX || new == usize::MAX {
                return None;
            }
            d.kind = LineKind::Context;
            d.old = Some(old);
            d.new = Some(new);
            old = old + 1;
            new = new + 1;
        }
        assert(d@ == step.1);
        assert(step.0 == (old as int, new as int, in_hunk));
        out.push(d);
        assert(out@.map_values(|d: DiffLine| d@) =~= prefix.push(step.1));
        assert(prefix.push(step.1) + patch_lines(step.0, l.skip(i + 1)) =~= prefix + (seq![step.1]
            + patch_lines(step.0, l.skip(i + 1))));
        i += 1;
    }
    assert(out@.map_values(|d: DiffLine| d@) + Seq::empty() =~= out@.map_values(|d: DiffLine| d@));
    assert(all.len() == i);
    Some(out)
}

/// Reads a unified patch whose line numbers fit (see [`try_parse_patch`]).
pub fn parse_patch(patch: &str) -> (res: Vec<DiffLine>)
    requires
        patch_numbers_fit(patch@),
    ensures
        res@.map_values(|d: DiffLine| d@) == parse_patch_spec(patch@),
{
    match try_parse_patch(patch) {
        Some(v) => v,
        None => Vec::new(),
    }
}


// ---------------------------------------------------------------------------
// Comparisons and the `git` invocations that read them
/// A resolved comparison: the base commit of working changes, the index against the working
/// tree, the index against a base commit (none before the first commit), or two commits.
pub enum Comparison {
    Working(String),
    Unstaged,
    Staged(Option<String>),
    Between(String, String),
}

/// The comparison a review mode stands for, once git has answered: working changes are
/// compared with `HEAD`, or with the empty tree before the first commit; staged changes with
/// `HEAD` (none before the first commit); two revisions with each other as resolved.
pub fn comparison_of(mode: &Mode, head: Option<String>, empty_tree: String, resolved: (String, String)) -> (res:
    Comparison)
    ensures
        *mode == Mode::Working ==> (res matches Comparison::Working(base) && base@ == (match head {
            Some(h) => h@,
            None => empty_tree@,
        })),
        *mode == Mode::Unstaged ==> res == Comparison::Unstaged,
        *mode == Mode::Staged ==> (res matches Comparison::Staged(base) && opt_string(base) == opt_string(head)),
        mode is Branches ==> (res matches Comparison::Between(from, to) && from@ == resolved.0@ && to@
            == resolved.1@),
{
    match mode {
        Mode::Working => match head {
            Some(h) => Comparison::Working(h),
            None => Comparison::Working(empty_tree),
        },
        Mode::Unstaged => Comparison::Unstaged,
        Mode::Staged => Comparison::Staged(head),
        Mode::Branches(_, _) => Comparison::Between(resolved.0, resolved.1),
    }
}

/// An optional string as text.
pub open spec fn opt_string(o: Option<String>) -> Option<Seq<char>> {
    match o {
        Some(s) => Some(s@),
        None => None,
    }
}

/// The changed files of one comparison.
pub struct Snapshot {
    pub comparison: Comparison,
    pub changes: Vec<Change>,
}

/// The old and new contents of a changed file, where they could be read.
#[derive(Clone, Default, PartialEq, Eq, Debug)]
pub struct Sources {
    pub old: Option<String>,
    pub new: Option<String>,
}

/// A repository, known by the bytes of its top-level directory.
pub struct Repository {
    pub root: Vec<u8>,
}

/// The characters of a list of strings.
pub open spec fn strings_view(v: Seq<String>) -> Seq<Seq<char>> {
    v.map_values(|s: String| s@)
}

/// Appends a string slice, as an owned string, to a list.
pub fn push_string(v: &mut Vec<String>, s: &str)
    ensures
        strings_view(final(v)@) == strings_view(old(v)@).push(s@),
{
    let ghost before = v@;
    v.push(String::from_str(s));
    assert(strings_view(v@) =~= strings_view(before).push(s@));
}

/// The message of a failed `git` run: its error output, decoded, without surrounding
/// whitespace, made safe for the terminal.
pub open spec fn failure_message(stderr: Seq<u8>) -> Seq<char> {
    clean_spec(trim_spec(lossy_utf8(stderr)))
}

/// What a finished `git` run gives: its output when it succeeded, else the message of its
/// error output (see [`failure_message`]).
pub fn run_result(success: bool, stdout: Vec<u8>, stderr: &Vec<u8>) -> (res: Result<Vec<u8>, String>)
    ensures
        success ==> (res matches Ok(out) && out@ == stdout@),
        !success ==> (res matches Err(m) && m@ == failure_message(stderr@)),
{
    if success {
        return Ok(stdout);
    }
    let text = lossy_string(stderr);
    let trimmed = match validate_content(text.as_str()) {
        Ok(t) => String::from_str(t),
        Err(_) => String::new(),
    };
    assert(trimmed@ == trim_spec(lossy_utf8(stderr@))) by {
        if trim_spec(lossy_utf8(stderr@)).len() == 0 {
            assert(trim_spec(lossy_utf8(stderr@)) =~= Seq::<char>::empty());
        }
    }
    Err(clean(trimmed.as_str()))
}

/// The options that every `git` invocation of the review starts with.
pub open spec fn global_args_spec() -> Seq<Seq<char>> {
    seq!["--no-pager"@, "--literal-pathspecs"@, "-c"@, "core.quotePath=false"@]
}

/// The arguments of a `git diff` for a comparison: the fixed options, then what the comparison
/// names.
pub open spec fn diff_args_spec(c: Comparison) -> Seq<Seq<char>> {
    seq![
        "diff"@,
        "--no-ext-diff"@,
        "--no-textconv"@,
        "--color=never"@,
        "--no-relative"@,
        "--find-renames"@,
        "--ignore-submodules=none"@,
        "--submodule=short"@,
    ] + match c {
        Comparison::Working(base) => seq![base@],
        Comparison::Unstaged => Seq::empty(),
        Comparison::Staged(Some(base)) => seq!["--cached"@, base@],
        Comparison::Staged(None) => seq!["--cached"@],
        Comparison::Between(from, to) => seq![from@, to@],
    }
}

impl Repository {
    /// The repository whose top level `git rev-parse --show-toplevel` printed: its output
    /// without the final newline.
    pub fn open(toplevel: &Vec<u8>) -> (res: Repository)
        ensures
            res.root@ == (if toplevel@.len() > 0 && toplevel@.last() == 10u8 {
                toplevel@.drop_last()
            } else {
                toplevel@
            }),
    {
        let n = toplevel.len();
        if n > 0 && toplevel[n - 1] == 10u8 {
            Repository { root: slice_of(toplevel, 0, n - 1) }
        } else {
            Repository { root: copy_bytes(toplevel) }
        }
    }

    /// The options that every `git` invocation starts with.
    pub fn global_args() -> (res: Vec<String>)
        ensures
            strings_view(res@) == global_args_spec(),
    {
        let mut v: Vec<String> = Vec::new();
        push_string(&mut v, "--no-pager");
        push_string(&mut v, "--literal-pathspecs");
        push_string(&mut v, "-c");
        push_string(&mut v, "core.quotePath=false");
        assert(strings_view(v@) =~= global_args_spec());
        v
    }

    /// The arguments of a `git diff` for a comparison.
    pub fn diff_args(comparison: &Comparison) -> (res: Vec<String>)
        ensures
            strings_view(res@) == diff_args_spec(*comparison),
    {
        let mut v: Vec<String> = Vec::new();
        push_string(&mut v, "diff");
        push_string(&mut v, "--no-ext-diff");
        push_string(&mut v, "--no-textconv");
        push_string(&mut v, "--color=never");
        push_string(&mut v, "--no-relative");
        push_string(&mut v, "--find-renames");
        push_string(&mut v, "--ignore-submodules=none");
        push_string(&mut v, "--submodule=short");
        match comparison {
            Comparison::Working(base) => push_string(&mut v, base.as_str()),
            Comparison::Unstaged => {},
            Comparison::Staged(base) => {
                push_string(&mut v, "--cached");
                if let Some(base) = base {
                    push_string(&mut v, base.as_str());
                }
            },
            Comparison::Between(from, to) => {
                push_string(&mut v, from.as_str());
                push_string(&mut v, to.as_str());
            },
        }
        assert(strings_view(v@) =~= diff_args_spec(*comparison));
        v
    }

    /// The arguments that list the changed files of a comparison.
    pub fn name_status_args(comparison: &Comparison) -> (res: Vec<String>)
        ensures
            strings_view(res@) == diff_args_spec(*comparison) + seq![
                "--name-status"@,
                "-z"@,
                "--"@,
            ],
    {
        let mut v = Self::diff_args(comparison);
        push_string(&mut v, "--name-status");
        push_string(&mut v, "-z");
        push_string(&mut v, "--");
        assert(strings_view(v@) =~= diff_args_spec(*comparison) + seq![
            "--name-status"@,
            "-z"@,
            "--"@,
        ]);
        v
    }

    /// The arguments that read the patch of one change: the options, then the paths (the old
    /// path first for a rename or copy).
    pub fn patch_args(comparison: &Comparison, change: &Change, ignore_whitespace: bool) -> (res: (
        Vec<String>,
        Vec<Vec<u8>>,
    ))
        ensures
            strings_view(res.0@) == diff_args_spec(*comparison) + (if ignore_whitespace {
                seq!["--ignore-all-space"@]
            } else {
                Seq::empty()
            }) + seq!["--patch"@, "--unified=3"@, "--"@],
            res.1@.map_values(|p: Vec<u8>| p@) == match change.old_path {
                Some(old) => seq![old@, change.path@],
                None => seq![change.path@],
            },
    {
        let mut v = Self::diff_args(comparison);
        let ghost base = strings_view(v@);
        if ignore_whitespace {
            push_string(&mut v, "--ignore-all-space");
        }
        let ghost mid = strings_view(v@);
        push_string(&mut v, "--patch");
        push_string(&mut v, "--unified=3");
        push_string(&mut v, "--");
        assert(strings_view(v@) =~= mid + seq!["--patch"@, "--unified=3"@, "--"@]);
        if ignore_whitespace {
            assert(mid =~= base + seq!["--ignore-all-space"@]);
        } else {
            assert(mid =~= base + Seq::<Seq<char>>::empty());
        }
        let mut paths: Vec<Vec<u8>> = Vec::new();
        if let Some(old) = &change.old_path {
            paths.push(copy_bytes(old));
        }
        paths.push(copy_bytes(&change.path));
        proof {
            match &change.old_path {
                Some(old) => {
                    assert(paths@.map_values(|p: Vec<u8>| p@) =~= seq![old@, change.path@]);
                },
                None => {
                    assert(paths@.map_values(|p: Vec<u8>| p@) =~= seq![change.path@]);
                },
            }
        }
        (v, paths)
    }

    /// The arguments that resolve a revision to a commit.
    pub fn resolve_args(revision: &str) -> (res: Vec<String>)
        ensures
            strings_view(res@) == seq![
                "rev-parse"@,
                "--verify"@,
                "--end-of-options"@,
                revision@ + "^{commit}"@,
            ],
    {
        let mut v: Vec<String> = Vec::new();
        push_string(&mut v, "rev-parse");
        push_string(&mut v, "--verify");
        push_string(&mut v, "--end-of-options");
        let mut target = String::from_str(revision);
        push_str(&mut target, "^{commit}");
        let ghost before = v@;
        v.push(target);
        assert(strings_view(v@) =~= strings_view(before).push(revision@ + "^{commit}"@));
        assert(strings_view(v@) =~= seq![
            "rev-parse"@,
            "--verify"@,
            "--end-of-options"@,
            revision@ + "^{commit}"@,
        ]);
        v
    }

    /// The snapshot of a comparison from its `--name-status -z` listing.
    pub fn snapshot(comparison: Comparison, name_status: &Vec<u8>) -> (res: Result<
        Snapshot,
        ChangesError,
    >)
        ensures
            match (res, parse_changes_spec(name_status@)) {
                (Ok(s), Ok(c)) => changes_view(s.changes@) == c && s.comparison == comparison,
                (Err(e), Err(f)) => e == f,
                _ => false,
            },
    {
        match parse_changes(name_status) {
            Ok(changes) => Ok(Snapshot { comparison, changes }),
            Err(e) => Err(e),
        }
    }

    /// The patch lines of `git diff --patch` output, decoded as `String::from_utf8_lossy`
    /// decodes it; `None` when a line number would pass `usize::MAX`.
    pub fn patch(output: &Vec<u8>) -> (res: Option<Vec<DiffLine>>)
        ensures
            res is Some <==> patch_numbers_fit(lossy_utf8(output@)),
            res matches Some(v) ==> v@.map_values(|d: DiffLine| d@) == parse_patch_spec(
                lossy_utf8(output@),
            ),
    {
        let text = lossy_string(output);
        try_parse_patch(text.as_str())
    }

    /// Where the old and new contents of a change are read from: added and unmerged files
    /// have no old content and deleted files no new content; the old side is the comparison's
    /// base commit (the index for unstaged changes) at the old path, and the new side its
    /// target commit, the index, or the working tree at the path.
    pub fn sources(comparison: &Comparison, change: &Change) -> (res: (SourceRead, SourceRead))
        ensures
            res.0@ == old_source_spec(*comparison, change@),
            res.1@ == new_source_spec(*comparison, change@),
    {
        let old_path = match &change.old_path {
            Some(p) => copy_bytes(p),
            None => copy_bytes(&change.path),
        };
        let old = if change.status == 'A' || change.status == 'U' {
            SourceRead::Nothing
        } else {
            match comparison {
                Comparison::Working(base) => SourceRead::Blob(base.clone(), old_path),
                Comparison::Between(base, _) => SourceRead::Blob(base.clone(), old_path),
                Comparison::Staged(Some(base)) => SourceRead::Blob(base.clone(), old_path),
                Comparison::Staged(None) => SourceRead::Nothing,
                Comparison::Unstaged => SourceRead::Blob(String::new(), old_path),
            }
        };
        let new = if change.status == 'D' {
            SourceRead::Nothing
        } else {
            match comparison {
                Comparison::Between(_, to) => SourceRead::Blob(to.clone(), copy_bytes(&change.path)),
                Comparison::Staged(_) => SourceRead::Blob(String::new(), copy_bytes(&change.path)),
                Comparison::Working(_) => SourceRead::Working(copy_bytes(&change.path)),
                Comparison::Unstaged => SourceRead::Working(copy_bytes(&change.path)),
            }
        };
        (old, new)
    }

    /// The names of local and remote branches from `git for-each-ref
    /// --format=%(refname:short)` output, without symbolic `.../HEAD` refs.
    pub fn branches(output: &str) -> (res: Vec<String>)
        ensures
            strings_view(res@) == lines_of(output@).filter(
                |l: Seq<char>| !ends_with(l, "/HEAD"@),
            ),
    {
        let cs = chars_of(output);
        let ls = lines(&cs);
        let suffix = chars_of("/HEAD");
        let ghost l = lines_of(output@);
        let ghost pred = |l: Seq<char>| !ends_with(l, "/HEAD"@);
        let mut res: Vec<String> = Vec::new();
        for i in 0..ls.len()
            invariant
                ls@.len() == l.len(),
                l == lines_of(output@),
                suffix@ == "/HEAD"@,
                pred == (|l: Seq<char>| !ends_with(l, "/HEAD"@)),
                forall|k: int| 0 <= k < ls@.len() ==> #[trigger] ls@[k]@ == l[k],
                strings_view(res@) == l.take(i as int).filter(pred),
        {
            reveal_with_fuel(Seq::filter, 1);
            let ghost before = res@;
            if !ends_with_exec(&ls[i], &suffix) {
                res.push(string_from_chars(&ls[i]));
                assert(strings_view(res@) =~= strings_view(before).push(l[i as int]));
            }
            assert(l.take(i + 1).drop_last() =~= l.take(i as int));
        }
        assert(l.take(ls.len() as int) =~= l);
        res
    }
}

/// Where a side of a change is read from.
pub enum SourceRead {
    /// There is no such side.
    Nothing,
    /// `git cat-file` of `revision:path` (the index for an empty revision).
    Blob(String, Vec<u8>),
    /// The file in the working tree.
    Working(Vec<u8>),
}

/// A source location in the model: none, a blob (revision, path), or a working-tree path.
pub enum SourceReadSpec {
    Nothing,
    Blob(Seq<char>, Seq<u8>),
    Working(Seq<u8>),
}

impl View for SourceRead {
    type V = SourceReadSpec;

    open spec fn view(&self) -> SourceReadSpec {
        match self {
            SourceRead::Nothing => SourceReadSpec::Nothing,
            SourceRead::Blob(r, p) => SourceReadSpec::Blob(r@, p@),
            SourceRead::Working(p) => SourceReadSpec::Working(p@),
        }
    }
}

/// Where the old side of a change is read from (see [`Repository::sources`]).
pub open spec fn old_source_spec(c: Comparison, ch: (char, Seq<u8>, Option<Seq<u8>>)) -> SourceReadSpec {
    let old_path = match ch.2 {
        Some(p) => p,
        None => ch.1,
    };
    if ch.0 == 'A' || ch.0 == 'U' {
        SourceReadSpec::Nothing
    } else {
        match c {
            Comparison::Working(base) => SourceReadSpec::Blob(base@, old_path),
            Comparison::Between(base, _) => SourceReadSpec::Blob(base@, old_path),
            Comparison::Staged(Some(base)) => SourceReadSpec::Blob(base@, old_path),
            Comparison::Staged(None) => SourceReadSpec::Nothing,
            Comparison::Unstaged => SourceReadSpec::Blob(Seq::empty(), old_path),
        }
    }
}

/// Where the new side of a change is read from (see [`Repository::sources`]).
pub open spec fn new_source_spec(c: Comparison, ch: (char, Seq<u8>, Option<Seq<u8>>)) -> SourceReadSpec {
    if ch.0 == 'D' {
        SourceReadSpec::Nothing
    } else {
        match c {
            Comparison::Between(_, to) => SourceReadSpec::Blob(to@, ch.1),
            Comparison::Staged(_) => SourceReadSpec::Blob(Seq::empty(), ch.1),
            Comparison::Working(_) => SourceReadSpec::Working(ch.1),
            Comparison::Unstaged => SourceReadSpec::Working(ch.1),
        }
    }
}

} // verus!
