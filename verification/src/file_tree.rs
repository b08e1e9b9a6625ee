//! The file tree of a review: directories and files of the listed changes, sorted by name,
//! with single-child directory chains compacted into one entry and folded directories
//! remembered across rebuilds.
use vstd::prelude::*;

use crate::git::{clean, clean_spec, copy_bytes, lossy_string, lossy_utf8, Change};
use crate::review::clamp_move;
use crate::review::clamped_move;
use crate::text::push_str;

verus! {

// ---------------------------------------------------------------------------
// Paths as components
/// The components of a path from byte `i` on, the current component being `cur`: its
/// `/`-separated parts, without empty ones.
pub open spec fn comps_from(p: Seq<u8>, i: int, cur: Seq<u8>) -> Seq<Seq<u8>>
    decreases p.len() - i,
{
    if i < 0 || i >= p.len() {
        if cur.len() > 0 {
            seq![cur]
        } else {
            Seq::empty()
        }
    } else if p[i] == 47u8 {
        (if cur.len() > 0 {
            seq![cur]
        } else {
            Seq::empty()
        }) + comps_from(p, i + 1, Seq::empty())
    } else {
        comps_from(p, i + 1, cur.push(p[i]))
    }
}

/// The components of a path: its `/`-separated parts, without empty ones.
pub open spec fn components(p: Seq<u8>) -> Seq<Seq<u8>> {
    comps_from(p, 0, Seq::empty())
}

/// The components of a path (see [`components`]).
pub fn path_components(p: &Vec<u8>) -> (res: Vec<Vec<u8>>)
    ensures
        res@.map_values(|c: Vec<u8>| c@) == components(p@),
{
    let mut out: Vec<Vec<u8>> = Vec::new();
    let mut cur: Vec<u8> = Vec::new();
    for i in 0..p.len()
        invariant
            out@.map_values(|c: Vec<u8>| c@) + comps_from(p@, i as int, cur@) == components(p@),
    {
        let ghost before = out@.map_values(|c: Vec<u8>| c@);
        if p[i] == 47u8 {
            if cur.len() > 0 {
                let ghost c = cur@;
                out.push(cur);
                cur = Vec::new();
                assert(out@.map_values(|c: Vec<u8>| c@) =~= before.push(c));
                assert(before.push(c) + comps_from(p@, i + 1, Seq::empty()) =~= before + (seq![c]
                    + comps_from(p@, i + 1, Seq::empty())));
            } else {
                assert(Seq::<Seq<u8>>::empty() + comps_from(p@, i + 1, Seq::empty()) =~= comps_from(
                    p@,
                    i + 1,
                    Seq::empty(),
                ));
                assert(cur@ =~= Seq::<u8>::empty());
            }
        } else {
            cur.push(p[i]);
        }
    }
    let ghost before = out@.map_values(|c: Vec<u8>| c@);
    if cur.len() > 0 {
        let ghost c = cur@;
        out.push(cur);
        assert(out@.map_values(|c: Vec<u8>| c@) =~= before + seq![c]);
    } else {
        assert(before + Seq::<Seq<u8>>::empty() =~= before);
    }
    out
}

/// Components joined with `/`.
pub open spec fn join(cs: Seq<Seq<u8>>) -> Seq<u8>
    decreases cs.len(),
{
    if cs.len() == 0 {
        Seq::empty()
    } else if cs.len() == 1 {
        cs[0]
    } else {
        join(cs.drop_last()).push(47u8) + cs.last()
    }
}

/// Components joined with `/` (see [`join`]).
fn join_exec(cs: &Vec<Vec<u8>>, a: usize, b: usize) -> (res: Vec<u8>)
    requires
        a <= b <= cs@.len(),
    ensures
        res@ == join(cs@.map_values(|c: Vec<u8>| c@).subrange(a as int, b as int)),
{
    let ghost all = cs@.map_values(|c: Vec<u8>| c@);
    let mut out: Vec<u8> = Vec::new();
    for k in a..b
        invariant
            a <= b <= cs@.len(),
            all == cs@.map_values(|c: Vec<u8>| c@),
            out@ == join(all.subrange(a as int, k as int)),
    {
        let ghost before = out@;
        if k > a {
            out.push(47u8);
        }
        let c = &cs[k];
        for j in 0..c.len()
            invariant
                out@ == (if k > a {
                    before.push(47u8)
                } else {
                    before
                }) + c@.take(j as int),
        {
            out.push(c[j]);
            assert(c@.take(j + 1) =~= c@.take(j as int).push(c@[j as int]));
        }
        proof {
            assert(c@.take(c@.len() as int) =~= c@);
            let s = all.subrange(a as int, k + 1);
            assert(s.drop_last() =~= all.subrange(a as int, k as int));
            assert(s.last() == c@);
            if k == a {
                assert(s.len() == 1);
                assert(join(all.subrange(a as int, k as int)) =~= Seq::<u8>::empty());
                assert(out@ =~= c@);
            }
        }
    }
    out
}

/// Whether `cs` begins with `prefix`, component by component.
pub open spec fn has_prefix(cs: Seq<Seq<u8>>, prefix: Seq<Seq<u8>>) -> bool {
    prefix.len() <= cs.len() && cs.subrange(0, prefix.len() as int) == prefix
}

fn bytes_eq(a: &Vec<u8>, b: &Vec<u8>) -> (res: bool)
    ensures
        res == (a@ == b@),
{
    crate::refresh::bytes_eq(a, b)
}

/// Whether two component lists are equal.
fn comps_eq(a: &Vec<Vec<u8>>, b: &Vec<Vec<u8>>) -> (res: bool)
    ensures
        res == (a@.map_values(|c: Vec<u8>| c@) == b@.map_values(|c: Vec<u8>| c@)),
{
    let ghost av = a@.map_values(|c: Vec<u8>| c@);
    let ghost bv = b@.map_values(|c: Vec<u8>| c@);
    if a.len() != b.len() {
        assert(av.len() != bv.len());
        return false;
    }
    let r = prefix_eq(a, b, a.len());
    assert(av.subrange(0, a@.len() as int) =~= av);
    assert(bv.subrange(0, a@.len() as int) =~= bv);
    r
}

/// Whether the first `n` components of `a` and `b` are equal.
fn prefix_eq(a: &Vec<Vec<u8>>, b: &Vec<Vec<u8>>, n: usize) -> (res: bool)
    requires
        n <= a@.len(),
        n <= b@.len(),
    ensures
        res == (a@.map_values(|c: Vec<u8>| c@).subrange(0, n as int) == b@.map_values(
            |c: Vec<u8>| c@,
        ).subrange(0, n as int)),
{
    let ghost av = a@.map_values(|c: Vec<u8>| c@);
    let ghost bv = b@.map_values(|c: Vec<u8>| c@);
    for k in 0..n
        invariant
            n <= a@.len(),
            n <= b@.len(),
            av == a@.map_values(|c: Vec<u8>| c@),
            bv == b@.map_values(|c: Vec<u8>| c@),
            av.subrange(0, k as int) == bv.subrange(0, k as int),
    {
        if !bytes_eq(&a[k], &b[k]) {
            assert(av.subrange(0, n as int)[k as int] != bv.subrange(0, n as int)[k as int]);
            return false;
        }
        assert(av.subrange(0, k + 1) =~= av.subrange(0, k as int).push(av[k as int]));
        assert(bv.subrange(0, k + 1) =~= bv.subrange(0, k as int).push(bv[k as int]));
    }
    true
}

/// Whether `cs` begins with `prefix`, component by component.
fn has_prefix_exec(cs: &Vec<Vec<u8>>, prefix: &Vec<Vec<u8>>) -> (res: bool)
    ensures
        res == has_prefix(cs@.map_values(|c: Vec<u8>| c@), prefix@.map_values(|c: Vec<u8>| c@)),
{
    if prefix.len() > cs.len() {
        return false;
    }
    let r = prefix_eq(cs, prefix, prefix.len());
    assert(prefix@.map_values(|c: Vec<u8>| c@).subrange(0, prefix@.len() as int) =~= prefix@.map_values(
        |c: Vec<u8>| c@,
    ));
    r
}

// ---------------------------------------------------------------------------
// Byte-wise order of names
/// Byte-wise lexicographic order, as `OsStr` orders names.
pub open spec fn lex_lt(a: Seq<u8>, b: Seq<u8>) -> bool
    decreases a.len(),
{
    if b.len() == 0 {
        false
    } else if a.len() == 0 {
        true
    } else if a[0] < b[0] {
        true
    } else if a[0] > b[0] {
        false
    } else {
        lex_lt(a.drop_first(), b.drop_first())
    }
}

/// Byte-wise lexicographic order (see [`lex_lt`]).
fn lex_less(a: &Vec<u8>, b: &Vec<u8>) -> (res: bool)
    ensures
        res == lex_lt(a@, b@),
{
    let mut i: usize = 0;
    assert(a@.skip(0) =~= a@ && b@.skip(0) =~= b@);
    loop
        invariant
            i <= a@.len(),
            i <= b@.len(),
            lex_lt(a@, b@) == lex_lt(a@.skip(i as int), b@.skip(i as int)),
        decreases a@.len() - i,
    {
        if i == b.len() {
            return false;
        }
        if i == a.len() {
            return true;
        }
        if a[i] < b[i] {
            return true;
        }
        if a[i] > b[i] {
            return false;
        }
        assert(a@.skip(i as int).drop_first() =~= a@.skip(i + 1));
        assert(b@.skip(i as int).drop_first() =~= b@.skip(i + 1));
        i += 1;
    }
}

// ---------------------------------------------------------------------------
// Directory listings
/// A listed change: the components of its path and its index among the changes.
pub type Item = (Seq<Seq<u8>>, int);

/// The name an item gives to the directory at `prefix`: the name of a subdirectory when the
/// item lies deeper, of a file when it lies directly inside.
pub open spec fn name_under(it: Item, prefix: Seq<Seq<u8>>, dirs: bool) -> Option<Seq<u8>> {
    if has_prefix(it.0, prefix) && (if dirs {
        it.0.len() > prefix.len() + 1
    } else {
        it.0.len() == prefix.len() + 1
    }) {
        Some(it.0[prefix.len() as int])
    } else {
        None
    }
}

/// A name after `bound` (any name when there is no bound).
pub open spec fn after_bound(n: Seq<u8>, bound: Option<Seq<u8>>) -> bool {
    match bound {
        None => true,
        Some(b) => lex_lt(b, n),
    }
}

/// The least name at `prefix` after `bound` among the first `k` items.
pub open spec fn least_name(
    items: Seq<Item>,
    prefix: Seq<Seq<u8>>,
    dirs: bool,
    bound: Option<Seq<u8>>,
    k: int,
) -> Option<Seq<u8>>
    decreases k,
{
    if k <= 0 {
        None
    } else {
        let r = least_name(items, prefix, dirs, bound, k - 1);
        match name_under(items[k - 1], prefix, dirs) {
            Some(n) => if after_bound(n, bound) {
                match r {
                    Some(m) => if lex_lt(n, m) {
                        Some(n)
                    } else {
                        Some(m)
                    },
                    None => Some(n),
                }
            } else {
                r
            },
            None => r,
        }
    }
}

/// The names at `prefix` after `bound`, in byte order, at most `fuel` of them.
pub open spec fn names_from(
    items: Seq<Item>,
    prefix: Seq<Seq<u8>>,
    dirs: bool,
    bound: Option<Seq<u8>>,
    fuel: nat,
) -> Seq<Seq<u8>>
    decreases fuel,
{
    if fuel == 0 {
        Seq::empty()
    } else {
        match least_name(items, prefix, dirs, bound, items.len() as int) {
            None => Seq::empty(),
            Some(n) => seq![n] + names_from(items, prefix, dirs, Some(n), (fuel - 1) as nat),
        }
    }
}

/// The subdirectory names (or file names) at `prefix`, in byte order, each once.
pub open spec fn sorted_names(items: Seq<Item>, prefix: Seq<Seq<u8>>, dirs: bool) -> Seq<Seq<u8>> {
    names_from(items, prefix, dirs, None, items.len())
}

/// Listed changes as exec values: their components and indices.
pub open spec fn items_view(comps: Seq<Vec<Vec<u8>>>, idx: Seq<usize>) -> Seq<Item> {
    Seq::new(
        comps.len(),
        |k: int| (comps[k]@.map_values(|c: Vec<u8>| c@), idx[k] as int),
    )
}

/// The name an item gives at `prefix` (see [`name_under`]).
fn name_under_exec(item: &Vec<Vec<u8>>, prefix: &Vec<Vec<u8>>, dirs: bool) -> (res: Option<Vec<u8>>)
    ensures
        match res {
            Some(n) => name_under(
                (item@.map_values(|c: Vec<u8>| c@), 0),
                prefix@.map_values(|c: Vec<u8>| c@),
                dirs,
            ) == Some(n@),
            None => name_under(
                (item@.map_values(|c: Vec<u8>| c@), 0),
                prefix@.map_values(|c: Vec<u8>| c@),
                dirs,
            ) is None,
        },
{
    let deep = if dirs {
        item.len() > prefix.len() && item.len() - prefix.len() > 1
    } else {
        item.len() > prefix.len() && item.len() - prefix.len() == 1
    };
    if deep && has_prefix_exec(item, prefix) {
        Some(copy_bytes(&item[prefix.len()]))
    } else {
        None
    }
}

/// The least name at `prefix` after `bound` (see [`least_name`]).
fn least_name_exec(
    comps: &Vec<Vec<Vec<u8>>>,
    idx: &Vec<usize>,
    prefix: &Vec<Vec<u8>>,
    dirs: bool,
    bound: &Option<Vec<u8>>,
) -> (res: Option<Vec<u8>>)
    requires
        comps@.len() == idx@.len(),
    ensures
        match res {
            Some(n) => least_name(
                items_view(comps@, idx@),
                prefix@.map_values(|c: Vec<u8>| c@),
                dirs,
                opt_bytes(*bound),
                comps@.len() as int,
            ) == Some(n@),
            None => least_name(
                items_view(comps@, idx@),
                prefix@.map_values(|c: Vec<u8>| c@),
                dirs,
                opt_bytes(*bound),
                comps@.len() as int,
            ) is None,
        },
{
    let ghost items = items_view(comps@, idx@);
    let ghost pv = prefix@.map_values(|c: Vec<u8>| c@);
    let mut best: Option<Vec<u8>> = None;
    for k in 0..comps.len()
        invariant
            comps@.len() == idx@.len(),
            items == items_view(comps@, idx@),
            pv == prefix@.map_values(|c: Vec<u8>| c@),
            opt_bytes(best) == least_name(items, pv, dirs, opt_bytes(*bound), k as int),
    {
        let n = name_under_exec(&comps[k], prefix, dirs);
        proof {
            assert(name_under((comps@[k as int]@.map_values(|c: Vec<u8>| c@), 0), pv, dirs)
                == name_under(items[k as int], pv, dirs));
        }
        if let Some(n) = n {
            let ok = match bound {
                None => true,
                Some(b) => lex_less(b, &n),
            };
            if ok {
                let replace = match &best {
                    Some(m) => lex_less(&n, m),
                    None => true,
                };
                if replace {
                    best = Some(n);
                }
            }
        }
    }
    best
}

/// Optional bytes as a sequence.
pub open spec fn opt_bytes(o: Option<Vec<u8>>) -> Option<Seq<u8>> {
    match o {
        Some(v) => Some(v@),
        None => None,
    }
}

/// The names at `prefix`, in byte order, each once (see [`sorted_names`]).
fn sorted_names_exec(comps: &Vec<Vec<Vec<u8>>>, idx: &Vec<usize>, prefix: &Vec<Vec<u8>>, dirs: bool) -> (res: Vec<
    Vec<u8>,
>)
    requires
        comps@.len() == idx@.len(),
    ensures
        res@.map_values(|c: Vec<u8>| c@) == sorted_names(
            items_view(comps@, idx@),
            prefix@.map_values(|c: Vec<u8>| c@),
            dirs,
        ),
{
    let ghost items = items_view(comps@, idx@);
    let ghost pv = prefix@.map_values(|c: Vec<u8>| c@);
    let mut out: Vec<Vec<u8>> = Vec::new();
    let mut bound: Option<Vec<u8>> = None;
    let mut fuel = comps.len();
    loop
        invariant
            comps@.len() == idx@.len(),
            items == items_view(comps@, idx@),
            pv == prefix@.map_values(|c: Vec<u8>| c@),
            items.len() == comps@.len(),
            out@.map_values(|c: Vec<u8>| c@) + names_from(items, pv, dirs, opt_bytes(bound), fuel as nat)
                == sorted_names(items, pv, dirs),
        decreases fuel,
    {
        if fuel == 0 {
            assert(out@.map_values(|c: Vec<u8>| c@) + Seq::<Seq<u8>>::empty() =~= out@.map_values(
                |c: Vec<u8>| c@,
            ));
            return out;
        }
        match least_name_exec(comps, idx, prefix, dirs, &bound) {
            None => {
                assert(out@.map_values(|c: Vec<u8>| c@) + Seq::<Seq<u8>>::empty() =~= out@.map_values(
                    |c: Vec<u8>| c@,
                ));
                return out;
            },
            Some(n) => {
                let ghost before = out@.map_values(|c: Vec<u8>| c@);
                let ghost nv = n@;
                out.push(copy_bytes(&n));
                assert(out@.map_values(|c: Vec<u8>| c@) =~= before.push(nv));
                assert(before.push(nv) + names_from(items, pv, dirs, Some(nv), (fuel - 1) as nat)
                    =~= before + (seq![nv] + names_from(items, pv, dirs, Some(nv), (fuel - 1) as nat)));
                bound = Some(n);
                fuel -= 1;
            },
        }
    }
}


// ---------------------------------------------------------------------------
// Entries
/// The most components any of the first `k` items has.
pub open spec fn max_len(items: Seq<Item>, k: int) -> nat
    decreases k,
{
    if k <= 0 {
        0
    } else {
        let r = max_len(items, k - 1);
        if items[k - 1].0.len() > r {
            items[k - 1].0.len()
        } else {
            r
        }
    }
}

/// A directory extended while it holds no file and exactly one subdirectory, so that a chain
/// of single directories shows as one entry.
pub open spec fn compact(items: Seq<Item>, path: Seq<Seq<u8>>, fuel: nat) -> Seq<Seq<u8>>
    decreases fuel,
{
    if fuel == 0 {
        path
    } else {
        let dirs = sorted_names(items, path, true);
        if sorted_names(items, path, false).len() == 0 && dirs.len() == 1 {
            compact(items, path.push(dirs[0]), (fuel - 1) as nat)
        } else {
            path
        }
    }
}

/// The change of the last of the first `k` items whose path is `full`.
pub open spec fn last_change(items: Seq<Item>, full: Seq<Seq<u8>>, k: int) -> Option<int>
    decreases k,
{
    if k <= 0 {
        None
    } else if items[k - 1].0 == full {
        Some(items[k - 1].1)
    } else {
        last_change(items, full, k - 1)
    }
}

/// Whether a directory is folded: some folded path has its components.
pub open spec fn closed_has(closed: Seq<Seq<u8>>, path: Seq<Seq<u8>>) -> bool {
    exists|i: int| 0 <= i < closed.len() && components(#[trigger] closed[i]) == path
}

/// An entry in the model: path, label, depth, change, folded.
pub type EntrySpec = (Seq<u8>, Seq<char>, int, Option<int>, bool);

/// The label of a directory entry: its components below the parent, then `/`.
pub open spec fn dir_label(path: Seq<Seq<u8>>, from: int) -> Seq<char> {
    clean_spec(lossy_utf8(join(path.subrange(from, path.len() as int)))) + "/"@
}

/// The entry of file `name` in the directory at `prefix`.
pub open spec fn file_entry(items: Seq<Item>, prefix: Seq<Seq<u8>>, name: Seq<u8>, depth: int) -> EntrySpec {
    let full = prefix.push(name);
    (join(full), clean_spec(lossy_utf8(name)), depth, last_change(items, full, items.len() as int), false)
}

/// The entries of the directory at `prefix`: its subdirectories (each followed by its own
/// entries unless folded), then its files, each group in byte order of names.
pub open spec fn tree_entries(
    items: Seq<Item>,
    closed: Seq<Seq<u8>>,
    searching: bool,
    prefix: Seq<Seq<u8>>,
    depth: int,
    fuel: nat,
) -> Seq<EntrySpec>
    decreases fuel, 0nat,
{
    if fuel == 0 {
        Seq::empty()
    } else {
        dir_entries(items, closed, searching, prefix, depth, (fuel - 1) as nat, sorted_names(items, prefix, true))
            + sorted_names(items, prefix, false).map_values(|n: Seq<u8>| file_entry(items, prefix, n, depth))
    }
}

/// The entries of subdirectories `dirs` of the directory at `prefix`: each compacted
/// directory, folded when searching is off and its path is folded, then its own entries
/// unless folded.
pub open spec fn dir_entries(
    items: Seq<Item>,
    closed: Seq<Seq<u8>>,
    searching: bool,
    prefix: Seq<Seq<u8>>,
    depth: int,
    fuel: nat,
    dirs: Seq<Seq<u8>>,
) -> Seq<EntrySpec>
    decreases fuel, dirs.len() + 1,
{
    if dirs.len() == 0 {
        Seq::empty()
    } else {
        let path = compact(items, prefix.push(dirs[0]), max_len(items, items.len() as int));
        let collapsed = !searching && closed_has(closed, path);
        seq![(join(path), dir_label(path, prefix.len() as int), depth, None, collapsed)] + (if collapsed {
            Seq::empty()
        } else {
            tree_entries(items, closed, searching, path, depth + 1, fuel)
        }) + dir_entries(items, closed, searching, prefix, depth, fuel, dirs.drop_first())
    }
}

/// An entry of the tree: a directory or a changed file.
pub struct Entry {
    pub path: Vec<u8>,
    pub label: String,
    pub depth: usize,
    pub change: Option<usize>,
    pub collapsed: bool,
}

impl View for Entry {
    type V = EntrySpec;

    open spec fn view(&self) -> EntrySpec {
        (
            self.path@,
            self.label@,
            self.depth as int,
            match self.change {
                Some(c) => Some(c as int),
                None => None,
            },
            self.collapsed,
        )
    }
}

/// Entries in the model.
pub open spec fn entries_view(v: Seq<Entry>) -> Seq<EntrySpec> {
    v.map_values(|e: Entry| e@)
}

/// The most components any item has (see [`max_len`]).
fn max_len_exec(comps: &Vec<Vec<Vec<u8>>>, idx: &Vec<usize>) -> (res: usize)
    requires
        comps@.len() == idx@.len(),
    ensures
        res == max_len(items_view(comps@, idx@), comps@.len() as int),
{
    let ghost items = items_view(comps@, idx@);
    let mut m: usize = 0;
    for k in 0..comps.len()
        invariant
            comps@.len() == idx@.len(),
            items == items_view(comps@, idx@),
            m == max_len(items, k as int),
    {
        assert(items[k as int].0.len() == comps@[k as int]@.len());
        if comps[k].len() > m {
            m = comps[k].len();
        }
    }
    m
}

/// A directory extended through single-directory chains (see [`compact`]).
fn compact_exec(
    comps: &Vec<Vec<Vec<u8>>>,
    idx: &Vec<usize>,
    path: Vec<Vec<u8>>,
    fuel: usize,
) -> (res: Vec<Vec<u8>>)
    requires
        comps@.len() == idx@.len(),
    ensures
        res@.map_values(|c: Vec<u8>| c@) == compact(
            items_view(comps@, idx@),
            path@.map_values(|c: Vec<u8>| c@),
            fuel as nat,
        ),
    decreases fuel,
{
    if fuel == 0 {
        return path;
    }
    let files = sorted_names_exec(comps, idx, &path, false);
    let dirs = sorted_names_exec(comps, idx, &path, true);
    if files.len() == 0 && dirs.len() == 1 {
        let ghost before = path@.map_values(|c: Vec<u8>| c@);
        let mut next = path;
        next.push(copy_bytes(&dirs[0]));
        assert(next@.map_values(|c: Vec<u8>| c@) =~= before.push(dirs@[0]@));
        compact_exec(comps, idx, next, fuel - 1)
    } else {
        path
    }
}

/// The change of the last item whose path is `full` (see [`last_change`]).
fn last_change_exec(comps: &Vec<Vec<Vec<u8>>>, idx: &Vec<usize>, full: &Vec<Vec<u8>>) -> (res: Option<usize>)
    requires
        comps@.len() == idx@.len(),
    ensures
        last_change(items_view(comps@, idx@), full@.map_values(|c: Vec<u8>| c@), comps@.len() as int)
            == (match res {
            Some(c) => Some(c as int),
            None => None,
        }),
{
    let ghost items = items_view(comps@, idx@);
    let ghost fv = full@.map_values(|c: Vec<u8>| c@);
    let mut k = comps.len();
    while k > 0
        invariant
            k <= comps@.len(),
            comps@.len() == idx@.len(),
            items == items_view(comps@, idx@),
            fv == full@.map_values(|c: Vec<u8>| c@),
            last_change(items, fv, comps@.len() as int) == last_change(items, fv, k as int),
        decreases k,
    {
        if comps_eq(&comps[k - 1], full) {
            return Some(idx[k - 1]);
        }
        k -= 1;
    }
    None
}

/// A copy of a list of components.
fn copy_comps(v: &Vec<Vec<u8>>) -> (res: Vec<Vec<u8>>)
    ensures
        res@.map_values(|c: Vec<u8>| c@) == v@.map_values(|c: Vec<u8>| c@),
{
    let mut out: Vec<Vec<u8>> = Vec::new();
    for i in 0..v.len()
        invariant
            out@.map_values(|c: Vec<u8>| c@) == v@.map_values(|c: Vec<u8>| c@).take(i as int),
    {
        let ghost before = out@.map_values(|c: Vec<u8>| c@);
        let c = copy_bytes(&v[i]);
        let ghost cv = c@;
        out.push(c);
        assert(out@.map_values(|c: Vec<u8>| c@) =~= before.push(cv));
        assert(v@.map_values(|c: Vec<u8>| c@).take(i + 1) =~= v@.map_values(|c: Vec<u8>| c@).take(
            i as int,
        ).push(cv));
    }
    assert(v@.map_values(|c: Vec<u8>| c@).take(v@.len() as int) =~= v@.map_values(|c: Vec<u8>| c@));
    out
}

/// A compacted directory keeps the components it started from.
proof fn lemma_compact_len(items: Seq<Item>, path: Seq<Seq<u8>>, fuel: nat)
    ensures
        compact(items, path, fuel).len() >= path.len(),
        compact(items, path, fuel).subrange(0, path.len() as int) == path,
    decreases fuel,
{
    if fuel > 0 {
        let dirs = sorted_names(items, path, true);
        if sorted_names(items, path, false).len() == 0 && dirs.len() == 1 {
            lemma_compact_len(items, path.push(dirs[0]), (fuel - 1) as nat);
            let c = compact(items, path.push(dirs[0]), (fuel - 1) as nat);
            assert(c.subrange(0, path.len() as int) =~= c.subrange(0, path.len() + 1 as int).subrange(0, path.len() as int));
            assert(path.push(dirs[0]).subrange(0, path.len() as int) =~= path);
        }
    }
}

/// Whether a directory is folded (see [`closed_has`]).
fn closed_has_exec(closed: &Vec<Vec<u8>>, path: &Vec<Vec<u8>>) -> (res: bool)
    ensures
        res == closed_has(closed@.map_values(|c: Vec<u8>| c@), path@.map_values(|c: Vec<u8>| c@)),
{
    let ghost cv = closed@.map_values(|c: Vec<u8>| c@);
    let ghost pv = path@.map_values(|c: Vec<u8>| c@);
    for i in 0..closed.len()
        invariant
            cv == closed@.map_values(|c: Vec<u8>| c@),
            pv == path@.map_values(|c: Vec<u8>| c@),
            forall|j: int| 0 <= j < i ==> components(#[trigger] cv[j]) != pv,
    {
        let cs = path_components(&closed[i]);
        if comps_eq(&cs, path) {
            assert(components(cv[i as int]) == pv);
            return true;
        }
    }
    false
}

/// Appends the entries of the directory at `prefix` (see [`tree_entries`]).
fn append_tree(
    comps: &Vec<Vec<Vec<u8>>>,
    idx: &Vec<usize>,
    closed: &Vec<Vec<u8>>,
    searching: bool,
    prefix: &Vec<Vec<u8>>,
    depth: usize,
    fuel: usize,
    out: &mut Vec<Entry>,
)
    requires
        comps@.len() == idx@.len(),
        depth + fuel <= usize::MAX,
    ensures
        entries_view(final(out)@) == entries_view(old(out)@) + tree_entries(
            items_view(comps@, idx@),
            closed@.map_values(|c: Vec<u8>| c@),
            searching,
            prefix@.map_values(|c: Vec<u8>| c@),
            depth as int,
            fuel as nat,
        ),
    decreases fuel, 0nat,
{
    let ghost items = items_view(comps@, idx@);
    let ghost cv = closed@.map_values(|c: Vec<u8>| c@);
    let ghost pv = prefix@.map_values(|c: Vec<u8>| c@);
    if fuel == 0 {
        assert(entries_view(out@) + Seq::<EntrySpec>::empty() =~= entries_view(out@));
        return;
    }
    let ghost start = entries_view(out@);
    let dirs = sorted_names_exec(comps, idx, prefix, true);
    append_dirs(comps, idx, closed, searching, prefix, depth, fuel - 1, &dirs, 0, out);
    assert(dirs@.map_values(|c: Vec<u8>| c@).skip(0) =~= dirs@.map_values(|c: Vec<u8>| c@));
    let ghost mid = entries_view(out@);
    let files = sorted_names_exec(comps, idx, prefix, false);
    let ghost fv = files@.map_values(|c: Vec<u8>| c@);
    let ghost f = |n: Seq<u8>| file_entry(items, pv, n, depth as int);
    for k in 0..files.len()
        invariant
            comps@.len() == idx@.len(),
            items == items_view(comps@, idx@),
            pv == prefix@.map_values(|c: Vec<u8>| c@),
            fv == files@.map_values(|c: Vec<u8>| c@),
            f == (|n: Seq<u8>| file_entry(items, pv, n, depth as int)),
            entries_view(out@) == mid + fv.take(k as int).map_values(f),
    {
        let name = &files[k];
        let mut full = copy_comps(prefix);
        full.push(copy_bytes(name));
        assert(full@.map_values(|c: Vec<u8>| c@) =~= pv.push(fv[k as int]));
        let change = last_change_exec(comps, idx, &full);
        let path = join_exec(&full, 0, full.len());
        assert(full@.map_values(|c: Vec<u8>| c@).subrange(0, full@.len() as int) =~= full@.map_values(
            |c: Vec<u8>| c@,
        ));
        let label = clean(lossy_string(name).as_str());
        let ghost before = entries_view(out@);
        let e = Entry { path, label, depth, change, collapsed: false };
        assert(e@ == f(fv[k as int]));
        out.push(e);
        assert(entries_view(out@) =~= before.push(f(fv[k as int])));
        assert(fv.take(k + 1).map_values(f) =~= fv.take(k as int).map_values(f).push(f(fv[k as int])));
    }
    assert(fv.take(files@.len() as int) =~= fv);
    assert(start + tree_entries(items, cv, searching, pv, depth as int, fuel as nat) =~= mid
        + fv.map_values(f));
}

/// Appends the entries of subdirectories `dirs[from..]` of the directory at `prefix` (see
/// [`dir_entries`]).
fn append_dirs(
    comps: &Vec<Vec<Vec<u8>>>,
    idx: &Vec<usize>,
    closed: &Vec<Vec<u8>>,
    searching: bool,
    prefix: &Vec<Vec<u8>>,
    depth: usize,
    fuel: usize,
    dirs: &Vec<Vec<u8>>,
    from: usize,
    out: &mut Vec<Entry>,
)
    requires
        comps@.len() == idx@.len(),
        depth + fuel < usize::MAX,
        from <= dirs@.len(),
    ensures
        entries_view(final(out)@) == entries_view(old(out)@) + dir_entries(
            items_view(comps@, idx@),
            closed@.map_values(|c: Vec<u8>| c@),
            searching,
            prefix@.map_values(|c: Vec<u8>| c@),
            depth as int,
            fuel as nat,
            dirs@.map_values(|c: Vec<u8>| c@).skip(from as int),
        ),
    decreases fuel, dirs@.len() - from + 1,
{
    let ghost items = items_view(comps@, idx@);
    let ghost cv = closed@.map_values(|c: Vec<u8>| c@);
    let ghost pv = prefix@.map_values(|c: Vec<u8>| c@);
    let ghost ds = dirs@.map_values(|c: Vec<u8>| c@).skip(from as int);
    if from == dirs.len() {
        assert(ds =~= Seq::<Seq<u8>>::empty());
        assert(entries_view(out@) + Seq::<EntrySpec>::empty() =~= entries_view(out@));
        return;
    }
    let ghost start = entries_view(out@);
    let mut first = copy_comps(prefix);
    first.push(copy_bytes(&dirs[from]));
    assert(first@.map_values(|c: Vec<u8>| c@) =~= pv.push(ds[0]));
    let limit = max_len_exec(comps, idx);
    let path = compact_exec(comps, idx, first, limit);
    let ghost path_v = path@.map_values(|c: Vec<u8>| c@);
    let collapsed = !searching && closed_has_exec(closed, &path);
    let joined = join_exec(&path, 0, path.len());
    assert(path_v.subrange(0, path@.len() as int) =~= path_v);
    proof {
        lemma_compact_len(items, pv.push(ds[0]), limit as nat);
    }
    let rel = join_exec(&path, prefix.len(), path.len());
    let mut label = clean(lossy_string(&rel).as_str());
    push_str(&mut label, "/");
    let ghost e_spec: EntrySpec = (join(path_v), dir_label(path_v, pv.len() as int), depth as int, None, collapsed);
    let e = Entry { path: joined, label, depth, change: None, collapsed };
    assert(e@ == e_spec);
    out.push(e);
    assert(entries_view(out@) =~= start.push(e_spec));
    let ghost mid = entries_view(out@);
    if !collapsed {
        append_tree(comps, idx, closed, searching, &path, depth + 1, fuel, out);
    } else {
        assert(entries_view(out@) =~= mid + Seq::<EntrySpec>::empty());
    }
    let ghost after = entries_view(out@);
    append_dirs(comps, idx, closed, searching, prefix, depth, fuel, dirs, from + 1, out);
    assert(dirs@.map_values(|c: Vec<u8>| c@).skip(from + 1) =~= ds.drop_first());
    assert(start + (seq![e_spec] + (if collapsed {
        Seq::<EntrySpec>::empty()
    } else {
        tree_entries(items, cv, searching, path_v, depth + 1, fuel as nat)
    }) + dir_entries(items, cv, searching, pv, depth as int, fuel as nat, ds.drop_first())) =~= entries_view(
        out@,
    ));
}


// ---------------------------------------------------------------------------
// The tree
/// The listed changes as items: for each visible index, the components of its path and the
/// index itself.
pub open spec fn visible_items(changes: Seq<Change>, visible: Seq<usize>) -> Seq<Item> {
    Seq::new(visible.len(), |k: int| (components(changes[visible[k] as int].path@), visible[k] as int))
}

/// How many levels the tree is built to: one more than the deepest path has components
/// (saturating at the limit of `usize`).
pub open spec fn tree_fuel(items: Seq<Item>) -> nat {
    let m = max_len(items, items.len() as int);
    if m < usize::MAX {
        m + 1
    } else {
        m
    }
}

/// All entries of the tree, from the root down.
pub open spec fn all_entries(items: Seq<Item>, closed: Seq<Seq<u8>>, searching: bool) -> Seq<EntrySpec> {
    tree_entries(items, closed, searching, Seq::empty(), 0, tree_fuel(items))
}

/// The first entry at or after `k` whose path has the components `path`.
pub open spec fn first_equal(es: Seq<EntrySpec>, path: Seq<Seq<u8>>, k: int) -> Option<int>
    decreases es.len() - k,
{
    if k < 0 || k >= es.len() {
        None
    } else if components(es[k].0) == path {
        Some(k)
    } else {
        first_equal(es, path, k + 1)
    }
}

/// The last entry before `k` whose path `path` lies inside (or is).
pub open spec fn last_within(es: Seq<EntrySpec>, path: Seq<Seq<u8>>, k: int) -> Option<int>
    decreases k,
{
    if k <= 0 {
        None
    } else if has_prefix(path, components(es[k - 1].0)) {
        Some(k - 1)
    } else {
        last_within(es, path, k - 1)
    }
}

/// Where a kept path is found again: the entry with that path, else the last entry that
/// contains it.
pub open spec fn keep_index(es: Seq<EntrySpec>, keep: Option<Seq<u8>>) -> Option<int> {
    match keep {
        None => None,
        Some(p) => match first_equal(es, components(p), 0) {
            Some(i) => Some(i),
            None => last_within(es, components(p), es.len() as int),
        },
    }
}

/// The selection after a rebuild: the kept path's entry, else the previous selection, else
/// the first entry, never past the last one; nothing when there are no entries.
pub open spec fn selection_after(es: Seq<EntrySpec>, keep: Option<Seq<u8>>, previous: Option<usize>) -> Option<int> {
    if es.len() == 0 {
        None
    } else {
        let i = match keep_index(es, keep) {
            Some(i) => i,
            None => match previous {
                Some(p) => p as int,
                None => 0,
            },
        };
        Some(
            if i < es.len() - 1 {
                i
            } else {
                es.len() - 1
            },
        )
    }
}

/// Folded paths that a revealed path does not lie inside.
pub open spec fn not_above(selected: Seq<u8>) -> spec_fn(Seq<u8>) -> bool {
    |p: Seq<u8>| !has_prefix(components(selected), components(p))
}

/// Folded paths other than `path`.
pub open spec fn other_than(path: Seq<Seq<u8>>) -> spec_fn(Seq<u8>) -> bool {
    |p: Seq<u8>| components(p) != path
}

/// An optional index as an integer.
pub open spec fn opt_int(o: Option<usize>) -> Option<int> {
    match o {
        Some(i) => Some(i as int),
        None => None,
    }
}

/// The bytes of an optional borrowed path.
pub open spec fn opt_ref_bytes(o: Option<&Vec<u8>>) -> Option<Seq<u8>> {
    match o {
        Some(v) => Some(v@),
        None => None,
    }
}

/// The path a rebuild keeps the selection on: the revealed path, else the current entry's
/// path, else the given one.
pub open spec fn kept_path(current: Option<EntrySpec>, selected: Option<Seq<u8>>, reveal: bool) -> Option<Seq<u8>> {
    if reveal {
        selected
    } else {
        match current {
            Some(e) => Some(e.0),
            None => selected,
        }
    }
}

/// Where a kept path is found again among the entries (see [`keep_index`]).
fn keep_position(es: &Vec<Entry>, keep: &Option<Vec<u8>>) -> (res: Option<usize>)
    ensures
        opt_int(res) == keep_index(entries_view(es@), opt_bytes(*keep)),
{
    let ghost ev = entries_view(es@);
    let p = match keep {
        Some(p) => p,
        None => return None,
    };
    let ghost kc = components(p@);
    assert(opt_bytes(*keep) == Some(p@));
    let pc = path_components(p);
    let mut i: usize = 0;
    while i < es.len()
        invariant
            ev == entries_view(es@),
            pc@.map_values(|c: Vec<u8>| c@) == kc,
            kc == components(p@),
            opt_bytes(*keep) == Some(p@),
            i <= es@.len(),
            first_equal(ev, kc, 0) == first_equal(ev, kc, i as int),
        decreases es@.len() - i,
    {
        let ec = path_components(&es[i].path);
        assert(ev[i as int].0 == es@[i as int].path@);
        if comps_eq(&ec, &pc) {
            assert(first_equal(ev, kc, i as int) == Some(i as int));
            return Some(i);
        }
        i += 1;
    }
    let mut k = es.len();
    while k > 0
        invariant
            ev == entries_view(es@),
            pc@.map_values(|c: Vec<u8>| c@) == kc,
            kc == components(p@),
            opt_bytes(*keep) == Some(p@),
            k <= es@.len(),
            first_equal(ev, kc, 0) is None,
            last_within(ev, kc, ev.len() as int) == last_within(ev, kc, k as int),
        decreases k,
    {
        let ec = path_components(&es[k - 1].path);
        assert(ev[k - 1].0 == es@[k - 1].path@);
        if has_prefix_exec(&pc, &ec) {
            assert(last_within(ev, kc, k as int) == Some(k - 1));
            return Some(k - 1);
        }
        k -= 1;
    }
    None
}

/// The last directory entry before `k` that `path` lies strictly inside.
pub open spec fn parent_of(es: Seq<EntrySpec>, path: Seq<Seq<u8>>, k: int) -> Option<int>
    decreases k,
{
    if k <= 0 {
        None
    } else if es[k - 1].3 is None && components(es[k - 1].0) != path && has_prefix(
        path,
        components(es[k - 1].0),
    ) {
        Some(k - 1)
    } else {
        parent_of(es, path, k - 1)
    }
}

/// Revealing a path unfolds every directory it lies in: no folded path that is kept contains
/// it.
pub proof fn law_revealed_path_is_unfolded(folded: Seq<Seq<u8>>, selected: Seq<u8>)
    ensures
        forall|j: int|
            0 <= j < folded.filter(not_above(selected)).len() ==> !has_prefix(
                components(selected),
                components(#[trigger] folded.filter(not_above(selected))[j]),
            ),
{
    folded.filter_lemma(not_above(selected));
    assert forall|j: int| 0 <= j < folded.filter(not_above(selected)).len() implies !has_prefix(
        components(selected),
        components(#[trigger] folded.filter(not_above(selected))[j]),
    ) by {
        assert(not_above(selected)(folded.filter(not_above(selected))[j]));
    }
}

/// An entry that shows a change shows one of the listed ones.
pub open spec fn shows_listed(e: EntrySpec, items: Seq<Item>) -> bool {
    match e.3 {
        Some(c) => exists|k: int| 0 <= k < items.len() && (#[trigger] items[k]).1 == c,
        None => true,
    }
}

/// Every entry shows a listed change, if any.
pub open spec fn all_show_listed(es: Seq<EntrySpec>, items: Seq<Item>) -> bool {
    forall|j: int| 0 <= j < es.len() ==> shows_listed(#[trigger] es[j], items)
}

proof fn lemma_last_change_listed(items: Seq<Item>, full: Seq<Seq<u8>>, k: int)
    requires
        k <= items.len(),
    ensures
        last_change(items, full, k) matches Some(c) ==> exists|i: int|
            0 <= i < items.len() && (#[trigger] items[i]).1 == c,
    decreases k,
{
    if k > 0 {
        lemma_last_change_listed(items, full, k - 1);
        if items[k - 1].0 == full {
            assert(items[k - 1].1 == last_change(items, full, k).unwrap());
        }
    }
}

proof fn lemma_concat_listed(a: Seq<EntrySpec>, b: Seq<EntrySpec>, items: Seq<Item>)
    requires
        all_show_listed(a, items),
        all_show_listed(b, items),
    ensures
        all_show_listed(a + b, items),
{
    assert forall|j: int| 0 <= j < (a + b).len() implies shows_listed(#[trigger] (a + b)[j], items) by {
        if j < a.len() {
            assert((a + b)[j] == a[j]);
        } else {
            assert((a + b)[j] == b[j - a.len()]);
        }
    }
}

proof fn lemma_tree_listed(
    items: Seq<Item>,
    closed: Seq<Seq<u8>>,
    searching: bool,
    prefix: Seq<Seq<u8>>,
    depth: int,
    fuel: nat,
)
    ensures
        all_show_listed(tree_entries(items, closed, searching, prefix, depth, fuel), items),
    decreases fuel, 0nat,
{
    if fuel > 0 {
        let dirs = sorted_names(items, prefix, true);
        let f = |n: Seq<u8>| file_entry(items, prefix, n, depth);
        let files = sorted_names(items, prefix, false).map_values(f);
        lemma_dirs_listed(items, closed, searching, prefix, depth, (fuel - 1) as nat, dirs);
        assert forall|j: int| 0 <= j < files.len() implies shows_listed(#[trigger] files[j], items) by {
            let n = sorted_names(items, prefix, false)[j];
            lemma_last_change_listed(items, prefix.push(n), items.len() as int);
        }
        lemma_concat_listed(
            dir_entries(items, closed, searching, prefix, depth, (fuel - 1) as nat, dirs),
            files,
            items,
        );
    }
}

proof fn lemma_dirs_listed(
    items: Seq<Item>,
    closed: Seq<Seq<u8>>,
    searching: bool,
    prefix: Seq<Seq<u8>>,
    depth: int,
    fuel: nat,
    dirs: Seq<Seq<u8>>,
)
    ensures
        all_show_listed(dir_entries(items, closed, searching, prefix, depth, fuel, dirs), items),
    decreases fuel, dirs.len() + 1,
{
    if dirs.len() > 0 {
        let path = compact(items, prefix.push(dirs[0]), max_len(items, items.len() as int));
        let collapsed = !searching && closed_has(closed, path);
        let head: Seq<EntrySpec> = seq![(join(path), dir_label(path, prefix.len() as int), depth, None, collapsed)];
        let inner = if collapsed {
            Seq::<EntrySpec>::empty()
        } else {
            tree_entries(items, closed, searching, path, depth + 1, fuel)
        };
        if !collapsed {
            lemma_tree_listed(items, closed, searching, path, depth + 1, fuel);
        }
        lemma_dirs_listed(items, closed, searching, prefix, depth, fuel, dirs.drop_first());
        assert(all_show_listed(head, items));
        lemma_concat_listed(head, inner, items);
        lemma_concat_listed(
            head + inner,
            dir_entries(items, closed, searching, prefix, depth, fuel, dirs.drop_first()),
            items,
        );
    }
}

/// An entry that shows a change shows one of the `visible` indices.
pub open spec fn shows_visible(e: EntrySpec, visible: Seq<usize>) -> bool {
    match e.3 {
        Some(c) => exists|k: int| 0 <= k < visible.len() && visible[k] == c,
        None => true,
    }
}

/// The tree shows only listed changes: every file entry's change is one of the visible
/// indices it was built from.
pub proof fn law_tree_shows_only_listed_changes(
    changes: Seq<Change>,
    visible: Seq<usize>,
    closed: Seq<Seq<u8>>,
    searching: bool,
)
    ensures
        forall|j: int|
            0 <= j < all_entries(visible_items(changes, visible), closed, searching).len() ==> shows_visible(
                #[trigger] all_entries(visible_items(changes, visible), closed, searching)[j],
                visible,
            ),
{
    let items = visible_items(changes, visible);
    lemma_tree_listed(items, closed, searching, Seq::empty(), 0, tree_fuel(items));
    let es = all_entries(items, closed, searching);
    assert forall|j: int| 0 <= j < es.len() implies shows_visible(#[trigger] es[j], visible) by {
        assert(shows_listed(es[j], items));
        if es[j].3 is Some {
            let c = es[j].3.unwrap();
            let k = choose|k: int| 0 <= k < items.len() && (#[trigger] items[k]).1 == c;
            assert(visible[k] == c);
        }
    }
}

/// No entry of `es` is a folded directory.
pub open spec fn none_folded(es: Seq<EntrySpec>) -> bool {
    forall|j: int| 0 <= j < es.len() ==> !(#[trigger] es[j]).4
}

proof fn lemma_none_folded_concat(a: Seq<EntrySpec>, b: Seq<EntrySpec>)
    requires
        none_folded(a),
        none_folded(b),
    ensures
        none_folded(a + b),
{
    assert forall|j: int| 0 <= j < (a + b).len() implies !(#[trigger] (a + b)[j]).4 by {
        if j >= a.len() {
            assert((a + b)[j] == b[j - a.len()]);
        }
    }
}

proof fn lemma_tree_none_folded(items: Seq<Item>, closed: Seq<Seq<u8>>, prefix: Seq<Seq<u8>>, depth: int, fuel: nat)
    ensures
        none_folded(tree_entries(items, closed, true, prefix, depth, fuel)),
    decreases fuel, 0nat,
{
    if fuel > 0 {
        let dirs = sorted_names(items, prefix, true);
        lemma_dirs_none_folded(items, closed, prefix, depth, (fuel - 1) as nat, dirs);
        let files = sorted_names(items, prefix, false).map_values(|n: Seq<u8>| file_entry(items, prefix, n, depth));
        assert(none_folded(files));
        lemma_none_folded_concat(dir_entries(items, closed, true, prefix, depth, (fuel - 1) as nat, dirs), files);
    }
}

proof fn lemma_dirs_none_folded(
    items: Seq<Item>,
    closed: Seq<Seq<u8>>,
    prefix: Seq<Seq<u8>>,
    depth: int,
    fuel: nat,
    dirs: Seq<Seq<u8>>,
)
    ensures
        none_folded(dir_entries(items, closed, true, prefix, depth, fuel, dirs)),
    decreases fuel, dirs.len() + 1,
{
    if dirs.len() > 0 {
        let path = compact(items, prefix.push(dirs[0]), max_len(items, items.len() as int));
        let head: Seq<EntrySpec> = seq![(join(path), dir_label(path, prefix.len() as int), depth, None, false)];
        lemma_tree_none_folded(items, closed, path, depth + 1, fuel);
        lemma_dirs_none_folded(items, closed, prefix, depth, fuel, dirs.drop_first());
        lemma_none_folded_concat(head, tree_entries(items, closed, true, path, depth + 1, fuel));
        lemma_none_folded_concat(
            head + tree_entries(items, closed, true, path, depth + 1, fuel),
            dir_entries(items, closed, true, prefix, depth, fuel, dirs.drop_first()),
        );
    }
}

/// While searching, no directory is folded: every entry of the tree is open, whatever paths
/// were folded before.
pub proof fn law_searching_folds_nothing(changes: Seq<Change>, visible: Seq<usize>, closed: Seq<Seq<u8>>)
    ensures
        none_folded(all_entries(visible_items(changes, visible), closed, true)),
{
    let items = visible_items(changes, visible);
    lemma_tree_none_folded(items, closed, Seq::empty(), 0, tree_fuel(items));
}

/// The entries `es` nest from depth `d`: the first is at `d`, none is above it, and from one
/// entry to the next the depth rises by at most one, and only right after a directory.
pub open spec fn nests_from(es: Seq<EntrySpec>, d: int) -> bool {
    &&& es.len() > 0 ==> es[0].2 == d
    &&& forall|k: int| 0 <= k < es.len() ==> (#[trigger] es[k]).2 >= d
    &&& forall|k: int|
        0 < k < es.len() ==> {
            &&& (#[trigger] es[k]).2 <= es[k - 1].2 + 1
            &&& es[k].2 == es[k - 1].2 + 1 ==> es[k - 1].3 is None
        }
}

proof fn lemma_nests_concat(a: Seq<EntrySpec>, b: Seq<EntrySpec>, d: int)
    requires
        nests_from(a, d),
        nests_from(b, d),
    ensures
        nests_from(a + b, d),
{
    let c = a + b;
    assert forall|k: int| 0 <= k < c.len() implies (#[trigger] c[k]).2 >= d by {
        if k >= a.len() {
            assert(c[k] == b[k - a.len()]);
        } else {
            assert(c[k] == a[k]);
        }
    }
    assert forall|k: int| 0 < k < c.len() implies {
        &&& (#[trigger] c[k]).2 <= c[k - 1].2 + 1
        &&& c[k].2 == c[k - 1].2 + 1 ==> c[k - 1].3 is None
    } by {
        if k < a.len() {
            assert(c[k] == a[k]);
            assert(c[k - 1] == a[k - 1]);
        } else if k == a.len() {
            assert(c[k - 1] == a[k - 1]);
            assert(c[k] == b[0]);
        } else {
            assert(c[k] == b[k - a.len()]);
            assert(c[k - 1] == b[k - 1 - a.len()]);
        }
    }
    if a.len() > 0 {
        assert(c[0] == a[0]);
    } else {
        assert(c =~= b);
    }
}

proof fn lemma_directory_then_inside(head: EntrySpec, inside: Seq<EntrySpec>, d: int)
    requires
        head.2 == d,
        head.3 is None,
        nests_from(inside, d + 1),
    ensures
        nests_from(seq![head] + inside, d),
{
    let c = seq![head] + inside;
    assert(c[0] == head);
    assert forall|k: int| 0 <= k < c.len() implies (#[trigger] c[k]).2 >= d by {
        if k > 0 {
            assert(c[k] == inside[k - 1]);
        }
    }
    assert forall|k: int| 0 < k < c.len() implies {
        &&& (#[trigger] c[k]).2 <= c[k - 1].2 + 1
        &&& c[k].2 == c[k - 1].2 + 1 ==> c[k - 1].3 is None
    } by {
        assert(c[k] == inside[k - 1]);
        if k > 1 {
            assert(c[k - 1] == inside[k - 2]);
        }
    }
}

proof fn lemma_tree_nests(
    items: Seq<Item>,
    closed: Seq<Seq<u8>>,
    searching: bool,
    prefix: Seq<Seq<u8>>,
    depth: int,
    fuel: nat,
)
    ensures
        nests_from(tree_entries(items, closed, searching, prefix, depth, fuel), depth),
    decreases fuel, 0nat,
{
    if fuel > 0 {
        let dirs = sorted_names(items, prefix, true);
        lemma_dirs_nest(items, closed, searching, prefix, depth, (fuel - 1) as nat, dirs);
        let files = sorted_names(items, prefix, false).map_values(|n: Seq<u8>| file_entry(items, prefix, n, depth));
        assert(nests_from(files, depth));
        lemma_nests_concat(dir_entries(items, closed, searching, prefix, depth, (fuel - 1) as nat, dirs), files, depth);
    }
}

proof fn lemma_dirs_nest(
    items: Seq<Item>,
    closed: Seq<Seq<u8>>,
    searching: bool,
    prefix: Seq<Seq<u8>>,
    depth: int,
    fuel: nat,
    dirs: Seq<Seq<u8>>,
)
    ensures
        nests_from(dir_entries(items, closed, searching, prefix, depth, fuel, dirs), depth),
    decreases fuel, dirs.len() + 1,
{
    if dirs.len() > 0 {
        let path = compact(items, prefix.push(dirs[0]), max_len(items, items.len() as int));
        let collapsed = !searching && closed_has(closed, path);
        let head: EntrySpec = (join(path), dir_label(path, prefix.len() as int), depth, None, collapsed);
        let inside = if collapsed {
            Seq::<EntrySpec>::empty()
        } else {
            tree_entries(items, closed, searching, path, depth + 1, fuel)
        };
        if !collapsed {
            lemma_tree_nests(items, closed, searching, path, depth + 1, fuel);
        }
        lemma_directory_then_inside(head, inside, depth);
        lemma_dirs_nest(items, closed, searching, prefix, depth, fuel, dirs.drop_first());
        lemma_nests_concat(
            seq![head] + inside,
            dir_entries(items, closed, searching, prefix, depth, fuel, dirs.drop_first()),
            depth,
        );
    }
}

/// The tree nests by depth: it starts at the top level, and an entry is one level deeper than
/// the one before it only right under a directory, never more; files are never followed by
/// deeper entries.
pub proof fn law_tree_depth_rises_only_under_directories(
    changes: Seq<Change>,
    visible: Seq<usize>,
    closed: Seq<Seq<u8>>,
    searching: bool,
)
    ensures
        nests_from(all_entries(visible_items(changes, visible), closed, searching), 0),
{
    let items = visible_items(changes, visible);
    lemma_tree_nests(items, closed, searching, Seq::empty(), 0, tree_fuel(items));
}

// ---------------------------------------------------------------------------
// Every listed change shows while searching
proof fn lemma_lex_irreflexive(a: Seq<u8>)
    ensures
        !lex_lt(a, a),
    decreases a.len(),
{
    if a.len() > 0 {
        lemma_lex_irreflexive(a.drop_first());
    }
}

proof fn lemma_lex_transitive(a: Seq<u8>, b: Seq<u8>, c: Seq<u8>)
    requires
        lex_lt(a, b),
        lex_lt(b, c),
    ensures
        lex_lt(a, c),
    decreases a.len(),
{
    if a.len() > 0 && b.len() > 0 && c.len() > 0 && a[0] == b[0] && b[0] == c[0] {
        lemma_lex_transitive(a.drop_first(), b.drop_first(), c.drop_first());
    }
}

proof fn lemma_lex_total(a: Seq<u8>, b: Seq<u8>)
    requires
        a != b,
    ensures
        lex_lt(a, b) || lex_lt(b, a),
    decreases a.len(),
{
    if a.len() > 0 && b.len() > 0 && a[0] == b[0] {
        if a.drop_first() == b.drop_first() {
            assert(a =~= seq![a[0]] + a.drop_first());
            assert(b =~= seq![b[0]] + b.drop_first());
        }
        lemma_lex_total(a.drop_first(), b.drop_first());
    } else if a.len() == 0 && b.len() == 0 {
        assert(a =~= b);
    }
}

/// Item `j` gives a name at `prefix` after `bound`.
pub open spec fn names_after(items: Seq<Item>, prefix: Seq<Seq<u8>>, dirs: bool, bound: Option<Seq<u8>>, j: int) -> bool {
    name_under(items[j], prefix, dirs) matches Some(m) && after_bound(m, bound)
}

/// How many of the first `k` items give a name at `prefix` after `bound`.
pub open spec fn count_after(items: Seq<Item>, prefix: Seq<Seq<u8>>, dirs: bool, bound: Option<Seq<u8>>, k: int) -> nat
    decreases k,
{
    if k <= 0 {
        0
    } else {
        count_after(items, prefix, dirs, bound, k - 1) + if names_after(items, prefix, dirs, bound, k - 1) {
            1nat
        } else {
            0nat
        }
    }
}

proof fn lemma_least_name(items: Seq<Item>, prefix: Seq<Seq<u8>>, dirs: bool, bound: Option<Seq<u8>>, k: int)
    requires
        0 <= k <= items.len(),
    ensures
        least_name(items, prefix, dirs, bound, k) is None ==> forall|j: int|
            0 <= j < k ==> !names_after(items, prefix, dirs, bound, j),
        least_name(items, prefix, dirs, bound, k) matches Some(n) ==> {
            &&& after_bound(n, bound)
            &&& exists|j: int| 0 <= j < k && name_under(items[j], prefix, dirs) == Some(n)
            &&& forall|j: int|
                0 <= j < k && names_after(items, prefix, dirs, bound, j) ==> (name_under(items[j], prefix, dirs)
                    == Some(n) || lex_lt(n, name_under(items[j], prefix, dirs).unwrap()))
        },
    decreases k,
{
    if k > 0 {
        lemma_least_name(items, prefix, dirs, bound, k - 1);
        let r = least_name(items, prefix, dirs, bound, k - 1);
        match name_under(items[k - 1], prefix, dirs) {
            Some(n) => {
                if after_bound(n, bound) {
                    match r {
                        Some(m) => {
                            if lex_lt(n, m) {
                                assert forall|j: int|
                                    0 <= j < k && names_after(items, prefix, dirs, bound, j) implies (name_under(
                                    items[j],
                                    prefix,
                                    dirs,
                                ) == Some(n) || lex_lt(n, name_under(items[j], prefix, dirs).unwrap())) by {
                                    if j < k - 1 && name_under(items[j], prefix, dirs) != Some(m) {
                                        lemma_lex_transitive(n, m, name_under(items[j], prefix, dirs).unwrap());
                                    }
                                }
                            } else {
                                if n != m {
                                    lemma_lex_total(n, m);
                                }
                            }
                        },
                        None => {},
                    }
                }
            },
            None => {},
        }
    }
}

proof fn lemma_count_fewer(
    items: Seq<Item>,
    prefix: Seq<Seq<u8>>,
    dirs: bool,
    b1: Option<Seq<u8>>,
    b2: Option<Seq<u8>>,
    k: int,
    j0: int,
)
    requires
        0 <= k <= items.len(),
        forall|j: int| 0 <= j < k && names_after(items, prefix, dirs, b2, j) ==> names_after(items, prefix, dirs, b1, j),
        0 <= j0 < k,
        names_after(items, prefix, dirs, b1, j0),
        !names_after(items, prefix, dirs, b2, j0),
    ensures
        count_after(items, prefix, dirs, b2, k) + 1 <= count_after(items, prefix, dirs, b1, k),
    decreases k,
{
    if j0 < k - 1 {
        lemma_count_fewer(items, prefix, dirs, b1, b2, k - 1, j0);
    } else {
        lemma_count_at_most(items, prefix, dirs, b1, b2, k - 1);
    }
}

proof fn lemma_count_at_most(
    items: Seq<Item>,
    prefix: Seq<Seq<u8>>,
    dirs: bool,
    b1: Option<Seq<u8>>,
    b2: Option<Seq<u8>>,
    k: int,
)
    requires
        0 <= k <= items.len(),
        forall|j: int| 0 <= j < k && names_after(items, prefix, dirs, b2, j) ==> names_after(items, prefix, dirs, b1, j),
    ensures
        count_after(items, prefix, dirs, b2, k) <= count_after(items, prefix, dirs, b1, k),
    decreases k,
{
    if k > 0 {
        lemma_count_at_most(items, prefix, dirs, b1, b2, k - 1);
    }
}

proof fn lemma_count_bounded(items: Seq<Item>, prefix: Seq<Seq<u8>>, dirs: bool, bound: Option<Seq<u8>>, k: int)
    requires
        0 <= k,
    ensures
        count_after(items, prefix, dirs, bound, k) <= k,
    decreases k,
{
    if k > 0 {
        lemma_count_bounded(items, prefix, dirs, bound, k - 1);
    }
}

/// With fuel for as many names as items give after `bound`, every such name is listed.
proof fn lemma_names_from_complete(
    items: Seq<Item>,
    prefix: Seq<Seq<u8>>,
    dirs: bool,
    bound: Option<Seq<u8>>,
    fuel: nat,
    j: int,
)
    requires
        count_after(items, prefix, dirs, bound, items.len() as int) <= fuel,
        0 <= j < items.len(),
        names_after(items, prefix, dirs, bound, j),
    ensures
        names_from(items, prefix, dirs, bound, fuel).contains(name_under(items[j], prefix, dirs).unwrap()),
    decreases fuel,
{
    let len = items.len() as int;
    let m = name_under(items[j], prefix, dirs).unwrap();
    lemma_least_name(items, prefix, dirs, bound, len);
    let n = least_name(items, prefix, dirs, bound, len).unwrap();
    let j0 = choose|i: int| 0 <= i < len && name_under(items[i], prefix, dirs) == Some(n);
    assert forall|i: int| 0 <= i < len && names_after(items, prefix, dirs, Some(n), i) implies names_after(
        items,
        prefix,
        dirs,
        bound,
        i,
    ) by {
        if let Some(b) = bound {
            lemma_lex_transitive(b, n, name_under(items[i], prefix, dirs).unwrap());
        }
    }
    lemma_lex_irreflexive(n);
    lemma_count_fewer(items, prefix, dirs, bound, Some(n), len, j0);
    assert(fuel > 0);
    let rest = names_from(items, prefix, dirs, Some(n), (fuel - 1) as nat);
    assert(names_from(items, prefix, dirs, bound, fuel) == seq![n] + rest);
    if m == n {
        assert((seq![n] + rest)[0] == n);
    } else {
        assert(lex_lt(n, m));
        lemma_names_from_complete(items, prefix, dirs, Some(n), (fuel - 1) as nat, j);
        let k = choose|k: int| 0 <= k < rest.len() && rest[k] == m;
        assert((seq![n] + rest)[k + 1] == m);
    }
}

proof fn lemma_sorted_names_complete(items: Seq<Item>, prefix: Seq<Seq<u8>>, dirs: bool, j: int)
    requires
        0 <= j < items.len(),
        name_under(items[j], prefix, dirs) is Some,
    ensures
        sorted_names(items, prefix, dirs).contains(name_under(items[j], prefix, dirs).unwrap()),
{
    lemma_count_bounded(items, prefix, dirs, None, items.len() as int);
    lemma_names_from_complete(items, prefix, dirs, None, items.len(), j);
}

/// Components `c` below `p` go on from `p`'s next component.
proof fn lemma_prefix_push(c: Seq<Seq<u8>>, p: Seq<Seq<u8>>)
    requires
        has_prefix(c, p),
        c.len() > p.len(),
    ensures
        has_prefix(c, p.push(c[p.len() as int])),
{
    assert(c.subrange(0, p.len() + 1 as int) =~= p.push(c[p.len() as int])) by {
        assert forall|i: int| 0 <= i < p.len() implies c.subrange(0, p.len() + 1 as int)[i] == p[i] by {
            assert(c.subrange(0, p.len() as int)[i] == p[i]);
        }
    }
}

/// An item below a directory stays below it when the directory is compacted.
proof fn lemma_compact_keeps(items: Seq<Item>, p: Seq<Seq<u8>>, fuel: nat, j: int)
    requires
        0 <= j < items.len(),
        has_prefix(items[j].0, p),
        items[j].0.len() > p.len(),
    ensures
        has_prefix(items[j].0, compact(items, p, fuel)),
        items[j].0.len() > compact(items, p, fuel).len(),
    decreases fuel,
{
    let c = items[j].0;
    if fuel > 0 {
        let dirs = sorted_names(items, p, true);
        if sorted_names(items, p, false).len() == 0 && dirs.len() == 1 {
            if c.len() == p.len() + 1 {
                lemma_sorted_names_complete(items, p, false, j);
            }
            lemma_sorted_names_complete(items, p, true, j);
            assert(dirs[0] == c[p.len() as int]);
            lemma_prefix_push(c, p);
            lemma_compact_keeps(items, p.push(dirs[0]), (fuel - 1) as nat, j);
        }
    }
}

/// Some entry shows the change `ch`.
pub open spec fn shows_change(es: Seq<EntrySpec>, ch: int) -> bool {
    exists|e: int| 0 <= e < es.len() && (#[trigger] es[e]).3 == Some(ch)
}

proof fn lemma_shows_concat(a: Seq<EntrySpec>, b: Seq<EntrySpec>, ch: int)
    requires
        shows_change(a, ch) || shows_change(b, ch),
    ensures
        shows_change(a + b, ch),
{
    if shows_change(a, ch) {
        let e = choose|e: int| 0 <= e < a.len() && (#[trigger] a[e]).3 == Some(ch);
        assert((a + b)[e] == a[e]);
    } else {
        let e = choose|e: int| 0 <= e < b.len() && (#[trigger] b[e]).3 == Some(ch);
        assert((a + b)[a.len() + e] == b[e]);
    }
}

/// The change of the only item whose path is `items[j]`'s.
proof fn lemma_last_change_unique(items: Seq<Item>, j: int, k: int)
    requires
        0 <= j < k <= items.len(),
        forall|i: int| 0 <= i < items.len() && #[trigger] items[i].0 == items[j].0 ==> i == j,
    ensures
        last_change(items, items[j].0, k) == Some(items[j].1),
    decreases k,
{
    if k - 1 != j {
        lemma_last_change_unique(items, j, k - 1);
    }
}

/// Each path has one item: no two items have the same components.
pub open spec fn paths_unique(items: Seq<Item>) -> bool {
    forall|i: int, j: int| 0 <= i < items.len() && 0 <= j < items.len() && #[trigger] items[i].0 == #[trigger] items[j].0 ==> i == j
}

proof fn lemma_tree_shows(items: Seq<Item>, closed: Seq<Seq<u8>>, prefix: Seq<Seq<u8>>, depth: int, fuel: nat, j: int)
    requires
        paths_unique(items),
        0 <= j < items.len(),
        has_prefix(items[j].0, prefix),
        items[j].0.len() > prefix.len(),
        fuel >= items[j].0.len() - prefix.len(),
    ensures
        shows_change(tree_entries(items, closed, true, prefix, depth, fuel), items[j].1),
    decreases fuel, 0nat,
{
    let c = items[j].0;
    let dirs = sorted_names(items, prefix, true);
    let names = sorted_names(items, prefix, false);
    let files = names.map_values(|n: Seq<u8>| file_entry(items, prefix, n, depth));
    let des = dir_entries(items, closed, true, prefix, depth, (fuel - 1) as nat, dirs);
    assert(tree_entries(items, closed, true, prefix, depth, fuel) == des + files);
    if c.len() == prefix.len() + 1 {
        lemma_sorted_names_complete(items, prefix, false, j);
        let name = c[prefix.len() as int];
        let i = choose|i: int| 0 <= i < names.len() && names[i] == name;
        lemma_prefix_push(c, prefix);
        assert(prefix.push(name) =~= c) by {
            assert(c.subrange(0, prefix.len() + 1 as int) =~= c);
        }
        lemma_last_change_unique(items, j, items.len() as int);
        assert(files[i].3 == Some(items[j].1));
        lemma_shows_concat(des, files, items[j].1);
    } else {
        lemma_sorted_names_complete(items, prefix, true, j);
        let i = choose|i: int| 0 <= i < dirs.len() && dirs[i] == c[prefix.len() as int];
        lemma_dirs_shows(items, closed, prefix, depth, (fuel - 1) as nat, dirs, i, j);
        lemma_shows_concat(des, files, items[j].1);
    }
}

proof fn lemma_dirs_shows(
    items: Seq<Item>,
    closed: Seq<Seq<u8>>,
    prefix: Seq<Seq<u8>>,
    depth: int,
    fuel: nat,
    dirs: Seq<Seq<u8>>,
    i: int,
    j: int,
)
    requires
        paths_unique(items),
        0 <= j < items.len(),
        0 <= i < dirs.len(),
        has_prefix(items[j].0, prefix),
        items[j].0.len() > prefix.len() + 1,
        dirs[i] == items[j].0[prefix.len() as int],
        fuel + 1 >= items[j].0.len() - prefix.len(),
    ensures
        shows_change(dir_entries(items, closed, true, prefix, depth, fuel, dirs), items[j].1),
    decreases fuel, dirs.len() + 1,
{
    let c = items[j].0;
    let path = compact(items, prefix.push(dirs[0]), max_len(items, items.len() as int));
    let head: Seq<EntrySpec> = seq![(join(path), dir_label(path, prefix.len() as int), depth, None, false)];
    let inside = tree_entries(items, closed, true, path, depth + 1, fuel);
    let rest = dir_entries(items, closed, true, prefix, depth, fuel, dirs.drop_first());
    assert(dir_entries(items, closed, true, prefix, depth, fuel, dirs) == head + inside + rest);
    if i == 0 {
        lemma_prefix_push(c, prefix);
        lemma_compact_keeps(items, prefix.push(dirs[0]), max_len(items, items.len() as int), j);
        lemma_compact_len(items, prefix.push(dirs[0]), max_len(items, items.len() as int));
        lemma_tree_shows(items, closed, path, depth + 1, fuel, j);
        lemma_shows_concat(head, inside, items[j].1);
        lemma_shows_concat(head + inside, rest, items[j].1);
    } else {
        lemma_dirs_shows(items, closed, prefix, depth, fuel, dirs.drop_first(), i - 1, j);
        lemma_shows_concat(head + inside, rest, items[j].1);
    }
}

proof fn lemma_max_len_bounds(items: Seq<Item>, k: int, j: int)
    requires
        0 <= j < k <= items.len(),
    ensures
        items[j].0.len() <= max_len(items, k),
    decreases k,
{
    if j < k - 1 {
        lemma_max_len_bounds(items, k - 1, j);
    }
}

/// While searching, every listed change shows in the tree: each change whose path has a
/// component, when no two listed paths have the same components, has a file entry. With
/// [`law_tree_shows_only_listed_changes`], the tree's files are the listed changes.
pub proof fn law_searching_shows_every_listed_change(changes: Seq<Change>, visible: Seq<usize>, closed: Seq<Seq<u8>>)
    requires
        forall|k: int| 0 <= k < visible.len() ==> components(changes[#[trigger] visible[k] as int].path@).len() > 0,
        forall|a: int, b: int|
            0 <= a < visible.len() && 0 <= b < visible.len() && a != b ==> components(
                changes[#[trigger] visible[a] as int].path@,
            ) != components(changes[#[trigger] visible[b] as int].path@),
    ensures
        forall|k: int|
            0 <= k < visible.len() ==> shows_change(
                all_entries(visible_items(changes, visible), closed, true),
                #[trigger] visible[k] as int,
            ),
{
    let items = visible_items(changes, visible);
    assert(paths_unique(items)) by {
        assert forall|a: int, b: int|
            0 <= a < items.len() && 0 <= b < items.len() && #[trigger] items[a].0 == #[trigger] items[b].0 implies a == b by {
            if a != b {
                assert(components(changes[visible[a] as int].path@) != components(changes[visible[b] as int].path@));
            }
        }
    }
    assert forall|k: int| 0 <= k < visible.len() implies shows_change(
        all_entries(items, closed, true),
        #[trigger] visible[k] as int,
    ) by {
        lemma_max_len_bounds(items, items.len() as int, k);
        assert(items[k].0.subrange(0, 0) =~= Seq::<Seq<u8>>::empty());
        lemma_tree_shows(items, closed, Seq::empty(), 0, tree_fuel(items), k);
    }
}

/// No two entries show the same change.
pub open spec fn shown_once(es: Seq<EntrySpec>) -> bool {
    forall|a: int, b: int|
        0 <= a < es.len() && 0 <= b < es.len() && a != b && (#[trigger] es[a]).3 is Some ==> es[a].3
            != (#[trigger] es[b]).3
}

/// Every change `es` shows is that of an item whose components satisfy `p`.
spec fn shown_in(es: Seq<EntrySpec>, items: Seq<Item>, p: spec_fn(Seq<Seq<u8>>) -> bool) -> bool {
    forall|e: int|
        0 <= e < es.len() && (#[trigger] es[e]).3 is Some ==> exists|i: int|
            0 <= i < items.len() && (#[trigger] items[i]).1 == es[e].3.unwrap() && p(items[i].0)
}

/// No two items have the same change.
spec fn changes_unique(items: Seq<Item>) -> bool {
    forall|i: int, j: int| 0 <= i < items.len() && 0 <= j < items.len() && #[trigger] items[i].1 == #[trigger] items[j].1 ==> i == j
}

proof fn lemma_once_concat(
    a: Seq<EntrySpec>,
    b: Seq<EntrySpec>,
    items: Seq<Item>,
    pa: spec_fn(Seq<Seq<u8>>) -> bool,
    pb: spec_fn(Seq<Seq<u8>>) -> bool,
)
    requires
        changes_unique(items),
        shown_once(a),
        shown_once(b),
        shown_in(a, items, pa),
        shown_in(b, items, pb),
        forall|c: Seq<Seq<u8>>| !(#[trigger] pa(c) && pb(c)),
    ensures
        shown_once(a + b),
        shown_in(a + b, items, |c: Seq<Seq<u8>>| pa(c) || pb(c)),
{
    let s = a + b;
    assert forall|x: int, y: int|
        0 <= x < s.len() && 0 <= y < s.len() && x != y && (#[trigger] s[x]).3 is Some implies s[x].3
        != (#[trigger] s[y]).3 by {
        if x < a.len() && y >= a.len() || x >= a.len() && y < a.len() {
            let (xa, yb) = if x < a.len() {
                (x, y - a.len())
            } else {
                (y, x - a.len())
            };
            assert(s[x] == if x < a.len() { a[x] } else { b[x - a.len()] });
            assert(s[y] == if y < a.len() { a[y] } else { b[y - a.len()] });
            if a[xa].3 == b[yb].3 {
                let i1 = choose|i: int| 0 <= i < items.len() && (#[trigger] items[i]).1 == a[xa].3.unwrap() && pa(items[i].0);
                let i2 = choose|i: int| 0 <= i < items.len() && (#[trigger] items[i]).1 == b[yb].3.unwrap() && pb(items[i].0);
                assert(i1 == i2);
                assert(!(pa(items[i1].0) && pb(items[i1].0)));
            }
        } else if x < a.len() {
            assert(s[x] == a[x] && s[y] == a[y]);
        } else {
            assert(s[x] == b[x - a.len()] && s[y] == b[y - a.len()]);
        }
    }
    let p = |c: Seq<Seq<u8>>| pa(c) || pb(c);
    assert forall|e: int| 0 <= e < s.len() && (#[trigger] s[e]).3 is Some implies exists|i: int|
        0 <= i < items.len() && (#[trigger] items[i]).1 == s[e].3.unwrap() && p(items[i].0) by {
        if e < a.len() {
            assert(s[e] == a[e]);
            let i = choose|i: int| 0 <= i < items.len() && (#[trigger] items[i]).1 == a[e].3.unwrap() && pa(items[i].0);
            assert(p(items[i].0));
        } else {
            assert(s[e] == b[e - a.len()]);
            let i = choose|i: int| 0 <= i < items.len() && (#[trigger] items[i]).1 == b[e - a.len()].3.unwrap() && pb(items[i].0);
            assert(p(items[i].0));
        }
    }
}

proof fn lemma_shown_weaken(es: Seq<EntrySpec>, items: Seq<Item>, p: spec_fn(Seq<Seq<u8>>) -> bool, q: spec_fn(Seq<Seq<u8>>) -> bool)
    requires
        shown_in(es, items, p),
        forall|c: Seq<Seq<u8>>| #[trigger] p(c) ==> q(c),
    ensures
        shown_in(es, items, q),
{
    assert forall|e: int| 0 <= e < es.len() && (#[trigger] es[e]).3 is Some implies exists|i: int|
        0 <= i < items.len() && (#[trigger] items[i]).1 == es[e].3.unwrap() && q(items[i].0) by {
        let i = choose|i: int| 0 <= i < items.len() && (#[trigger] items[i]).1 == es[e].3.unwrap() && p(items[i].0);
        assert(q(items[i].0));
    }
}

/// The names listed after `bound` come after it, each once.
proof fn lemma_names_distinct(items: Seq<Item>, prefix: Seq<Seq<u8>>, dirs: bool, bound: Option<Seq<u8>>, fuel: nat)
    ensures
        forall|k: int|
            0 <= k < names_from(items, prefix, dirs, bound, fuel).len() ==> after_bound(
                #[trigger] names_from(items, prefix, dirs, bound, fuel)[k],
                bound,
            ),
        forall|x: int, y: int|
            0 <= x < y < names_from(items, prefix, dirs, bound, fuel).len() ==> #[trigger] names_from(
                items,
                prefix,
                dirs,
                bound,
                fuel,
            )[x] != #[trigger] names_from(items, prefix, dirs, bound, fuel)[y],
    decreases fuel,
{
    if fuel > 0 {
        lemma_least_name(items, prefix, dirs, bound, items.len() as int);
        if let Some(n) = least_name(items, prefix, dirs, bound, items.len() as int) {
            lemma_names_distinct(items, prefix, dirs, Some(n), (fuel - 1) as nat);
            let rest = names_from(items, prefix, dirs, Some(n), (fuel - 1) as nat);
            let r = names_from(items, prefix, dirs, bound, fuel);
            assert(r == seq![n] + rest);
            assert forall|k: int| 0 <= k < r.len() implies after_bound(#[trigger] r[k], bound) by {
                if k > 0 {
                    assert(r[k] == rest[k - 1]);
                    if let Some(b) = bound {
                        lemma_lex_transitive(b, n, rest[k - 1]);
                    }
                }
            }
            assert forall|x: int, y: int| 0 <= x < y < r.len() implies #[trigger] r[x] != #[trigger] r[y] by {
                assert(r[y] == rest[y - 1]);
                if x == 0 {
                    lemma_lex_irreflexive(n);
                } else {
                    assert(r[x] == rest[x - 1]);
                }
            }
        }
    }
}

/// What a directory's entries may show: changes of items below `prefix`, deeper than it.
pub open spec fn below(prefix: Seq<Seq<u8>>) -> spec_fn(Seq<Seq<u8>>) -> bool {
    |c: Seq<Seq<u8>>| has_prefix(c, prefix) && c.len() > prefix.len()
}

/// What the subdirectories `dirs` of `prefix` may show: changes of items below one of them.
pub open spec fn below_dirs(prefix: Seq<Seq<u8>>, dirs: Seq<Seq<u8>>) -> spec_fn(Seq<Seq<u8>>) -> bool {
    |c: Seq<Seq<u8>>| has_prefix(c, prefix) && c.len() > prefix.len() + 1 && dirs.contains(c[prefix.len() as int])
}

proof fn lemma_last_change_found(items: Seq<Item>, full: Seq<Seq<u8>>, k: int)
    requires
        k <= items.len(),
    ensures
        last_change(items, full, k) matches Some(c) ==> exists|i: int|
            0 <= i < items.len() && (#[trigger] items[i]).1 == c && items[i].0 == full,
    decreases k,
{
    if k > 0 {
        lemma_last_change_found(items, full, k - 1);
        if items[k - 1].0 == full {
            assert(items[k - 1].1 == last_change(items, full, k).unwrap());
        }
    }
}

proof fn lemma_tree_once(items: Seq<Item>, closed: Seq<Seq<u8>>, prefix: Seq<Seq<u8>>, depth: int, fuel: nat)
    requires
        changes_unique(items),
    ensures
        shown_once(tree_entries(items, closed, true, prefix, depth, fuel)),
        shown_in(tree_entries(items, closed, true, prefix, depth, fuel), items, below(prefix)),
    decreases fuel, 0nat,
{
    if fuel > 0 {
        let dirs = sorted_names(items, prefix, true);
        let names = sorted_names(items, prefix, false);
        let files = names.map_values(|n: Seq<u8>| file_entry(items, prefix, n, depth));
        let des = dir_entries(items, closed, true, prefix, depth, (fuel - 1) as nat, dirs);
        lemma_names_distinct(items, prefix, true, None, items.len());
        lemma_names_distinct(items, prefix, false, None, items.len());
        lemma_dirs_once(items, closed, prefix, depth, (fuel - 1) as nat, dirs);
        let pf = |c: Seq<Seq<u8>>| has_prefix(c, prefix) && c.len() == prefix.len() + 1;
        assert forall|e: int| 0 <= e < files.len() && (#[trigger] files[e]).3 is Some implies exists|i: int|
            0 <= i < items.len() && (#[trigger] items[i]).1 == files[e].3.unwrap() && pf(items[i].0) by {
            lemma_last_change_found(items, prefix.push(names[e]), items.len() as int);
            let i = choose|i: int|
                0 <= i < items.len() && (#[trigger] items[i]).1 == files[e].3.unwrap() && items[i].0 == prefix.push(names[e]);
            assert(items[i].0.subrange(0, prefix.len() as int) =~= prefix);
        }
        assert forall|x: int, y: int|
            0 <= x < files.len() && 0 <= y < files.len() && x != y && (#[trigger] files[x]).3 is Some implies files[x].3
            != (#[trigger] files[y]).3 by {
            if files[x].3 == files[y].3 {
                lemma_last_change_found(items, prefix.push(names[x]), items.len() as int);
                lemma_last_change_found(items, prefix.push(names[y]), items.len() as int);
                let i1 = choose|i: int|
                    0 <= i < items.len() && (#[trigger] items[i]).1 == files[x].3.unwrap() && items[i].0 == prefix.push(names[x]);
                let i2 = choose|i: int|
                    0 <= i < items.len() && (#[trigger] items[i]).1 == files[y].3.unwrap() && items[i].0 == prefix.push(names[y]);
                assert(i1 == i2);
                assert(prefix.push(names[x])[prefix.len() as int] == names[x]);
                assert(prefix.push(names[y])[prefix.len() as int] == names[y]);
                if x < y {
                    assert(names[x] != names[y]);
                } else {
                    assert(names[y] != names[x]);
                }
            }
        }
        lemma_once_concat(des, files, items, below_dirs(prefix, dirs), pf);
        lemma_shown_weaken(des + files, items, |c: Seq<Seq<u8>>| below_dirs(prefix, dirs)(c) || pf(c), below(prefix));
    }
}

proof fn lemma_dirs_once(
    items: Seq<Item>,
    closed: Seq<Seq<u8>>,
    prefix: Seq<Seq<u8>>,
    depth: int,
    fuel: nat,
    dirs: Seq<Seq<u8>>,
)
    requires
        changes_unique(items),
        forall|x: int, y: int| 0 <= x < y < dirs.len() ==> #[trigger] dirs[x] != #[trigger] dirs[y],
    ensures
        shown_once(dir_entries(items, closed, true, prefix, depth, fuel, dirs)),
        shown_in(dir_entries(items, closed, true, prefix, depth, fuel, dirs), items, below_dirs(prefix, dirs)),
    decreases fuel, dirs.len() + 1,
{
    let des = dir_entries(items, closed, true, prefix, depth, fuel, dirs);
    if dirs.len() == 0 {
        assert(des.len() == 0);
    } else {
        let first = prefix.push(dirs[0]);
        let path = compact(items, first, max_len(items, items.len() as int));
        let head: Seq<EntrySpec> = seq![(join(path), dir_label(path, prefix.len() as int), depth, None, false)];
        let inside = tree_entries(items, closed, true, path, depth + 1, fuel);
        let tail = dirs.drop_first();
        let rest = dir_entries(items, closed, true, prefix, depth, fuel, tail);
        assert(des == head + inside + rest);
        lemma_tree_once(items, closed, path, depth + 1, fuel);
        assert forall|x: int, y: int| 0 <= x < y < tail.len() implies #[trigger] tail[x] != #[trigger] tail[y] by {
            assert(tail[x] == dirs[x + 1] && tail[y] == dirs[y + 1]);
        }
        lemma_dirs_once(items, closed, prefix, depth, fuel, tail);
        lemma_compact_len(items, first, max_len(items, items.len() as int));
        let pi = |c: Seq<Seq<u8>>| has_prefix(c, prefix) && c.len() > prefix.len() + 1 && c[prefix.len() as int] == dirs[0];
        assert forall|c: Seq<Seq<u8>>| #[trigger] below(path)(c) implies pi(c) by {
            let n = prefix.len() as int;
            assert(c.subrange(0, n + 1) =~= c.subrange(0, path.len() as int).subrange(0, n + 1));
            assert(c.subrange(0, n + 1) == first);
            assert(c[n] == c.subrange(0, n + 1)[n]);
            assert(first[n] == dirs[0]);
            assert(c.subrange(0, n) =~= c.subrange(0, n + 1).subrange(0, n));
            assert(first.subrange(0, n) =~= prefix);
        }
        lemma_shown_weaken(inside, items, below(path), pi);
        let none = |c: Seq<Seq<u8>>| false;
        assert(shown_once(head));
        assert(shown_in(head, items, none));
        lemma_once_concat(head, inside, items, none, pi);
        let p1 = |c: Seq<Seq<u8>>| none(c) || pi(c);
        let p2 = below_dirs(prefix, tail);
        assert forall|c: Seq<Seq<u8>>| !(#[trigger] p1(c) && p2(c)) by {
            if p1(c) && p2(c) {
                let k = choose|k: int| 0 <= k < tail.len() && tail[k] == c[prefix.len() as int];
                assert(dirs[0] != dirs[k + 1]);
            }
        }
        lemma_once_concat(head + inside, rest, items, p1, p2);
        let pu = |c: Seq<Seq<u8>>| p1(c) || p2(c);
        assert forall|c: Seq<Seq<u8>>| #[trigger] pu(c) implies below_dirs(prefix, dirs)(c) by {
            if p1(c) {
                assert(dirs[0] == c[prefix.len() as int]);
            } else {
                let k = choose|k: int| 0 <= k < tail.len() && tail[k] == c[prefix.len() as int];
                assert(dirs[k + 1] == c[prefix.len() as int]);
            }
        }
        lemma_shown_weaken(head + inside + rest, items, pu, below_dirs(prefix, dirs));
    }
}

/// While searching, each change shows in at most one entry, when no two listed changes
/// have the same components (so no change is listed twice).
pub proof fn law_searching_shows_each_change_once(changes: Seq<Change>, visible: Seq<usize>, closed: Seq<Seq<u8>>)
    requires
        forall|a: int, b: int|
            0 <= a < visible.len() && 0 <= b < visible.len() && a != b ==> components(
                changes[#[trigger] visible[a] as int].path@,
            ) != components(changes[#[trigger] visible[b] as int].path@),
    ensures
        shown_once(all_entries(visible_items(changes, visible), closed, true)),
{
    let items = visible_items(changes, visible);
    assert(changes_unique(items)) by {
        assert forall|a: int, b: int|
            0 <= a < items.len() && 0 <= b < items.len() && #[trigger] items[a].1 == #[trigger] items[b].1 implies a == b by {
            if a != b {
                assert(components(changes[visible[a] as int].path@) != components(changes[visible[b] as int].path@));
            }
        }
    }
    lemma_tree_once(items, closed, Seq::empty(), 0, tree_fuel(items));
}


/// After a rebuild an entry is selected exactly when there are entries, and it is one of them.
pub proof fn law_selection_stays_on_an_entry(es: Seq<EntrySpec>, keep: Option<Seq<u8>>, previous: Option<usize>)
    ensures
        selection_after(es, keep, previous) is None <==> es.len() == 0,
        selection_after(es, keep, previous) matches Some(i) ==> 0 <= i < es.len(),
{
    if let Some(p) = keep {
        lemma_first_equal_bounds(es, components(p), 0);
        lemma_last_within_bounds(es, components(p), es.len() as int);
    }
}

proof fn lemma_first_equal_bounds(es: Seq<EntrySpec>, path: Seq<Seq<u8>>, k: int)
    ensures
        first_equal(es, path, k) matches Some(i) ==> k <= i < es.len() && 0 <= i,
    decreases es.len() - k,
{
    if 0 <= k < es.len() && components(es[k].0) != path {
        lemma_first_equal_bounds(es, path, k + 1);
    }
}

proof fn lemma_last_within_bounds(es: Seq<EntrySpec>, path: Seq<Seq<u8>>, k: int)
    ensures
        last_within(es, path, k) matches Some(i) ==> 0 <= i < k,
    decreases k,
{
    if k > 0 && !has_prefix(path, components(es[k - 1].0)) {
        lemma_last_within_bounds(es, path, k - 1);
    }
}

/// Folding a directory folds it; unfolding it again leaves no folded path that names it.
pub proof fn law_folding_then_unfolding_a_directory(folded: Seq<Seq<u8>>, path: Seq<u8>)
    ensures
        closed_has(folded.push(path), components(path)),
        !closed_has(folded.push(path).filter(other_than(components(path))), components(path)),
{
    let pushed = folded.push(path);
    assert(components(pushed[folded.len() as int]) == components(path));
    let kept = pushed.filter(other_than(components(path)));
    pushed.filter_lemma(other_than(components(path)));
    assert forall|i: int| 0 <= i < kept.len() implies components(#[trigger] kept[i]) != components(path) by {
        assert(other_than(components(path))(kept[i]));
    }
}

/// A file tree: its entries, the selected one, and the folded directories.
pub struct FileTree {
    pub entries: Vec<Entry>,
    pub selected: Option<usize>,
    pub closed: Vec<Vec<u8>>,
}

impl FileTree {
    /// The folded directory paths.
    pub open spec fn folded(&self) -> Seq<Seq<u8>> {
        self.closed@.map_values(|c: Vec<u8>| c@)
    }

    /// The selected entry, when the selection points at one.
    pub open spec fn current_spec(&self) -> Option<EntrySpec> {
        match self.selected {
            Some(i) => if i < self.entries@.len() {
                Some(self.entries@[i as int]@)
            } else {
                None
            },
            None => None,
        }
    }

    /// An empty tree with nothing selected or folded.
    pub fn new() -> (res: Self)
        ensures
            res.entries@.len() == 0,
            res.selected is None,
            res.folded().len() == 0,
    {
        let res = FileTree { entries: Vec::new(), selected: None, closed: Vec::new() };
        assert(res.folded() =~= Seq::<Seq<u8>>::empty());
        res
    }

    /// The selected entry.
    pub fn current(&self) -> (res: Option<&Entry>)
        ensures
            match res {
                Some(e) => self.current_spec() == Some(e@),
                None => self.current_spec() is None,
            },
    {
        match self.selected {
            Some(i) => if i < self.entries.len() {
                Some(&self.entries[i])
            } else {
                None
            },
            None => None,
        }
    }

    /// Drops the folded paths that `selected` lies inside, so that it shows.
    fn unfold_above(&mut self, selected: &Vec<u8>)
        ensures
            final(self).folded() == old(self).folded().filter(not_above(selected@)),
            final(self).entries == old(self).entries,
            final(self).selected == old(self).selected,
    {
        let ghost cv = self.folded();
        let ghost pred = not_above(selected@);
        let sel = path_components(selected);
        let mut kept: Vec<Vec<u8>> = Vec::new();
        for i in 0..self.closed.len()
            invariant
                cv == self.folded(),
                cv == self.closed@.map_values(|c: Vec<u8>| c@),
                pred == not_above(selected@),
                sel@.map_values(|c: Vec<u8>| c@) == components(selected@),
                kept@.map_values(|c: Vec<u8>| c@) == cv.take(i as int).filter(pred),
        {
            reveal_with_fuel(Seq::filter, 1);
            let ghost before = kept@.map_values(|c: Vec<u8>| c@);
            assert(cv.take(i + 1).drop_last() =~= cv.take(i as int));
            let pc = path_components(&self.closed[i]);
            if !has_prefix_exec(&sel, &pc) {
                let c = copy_bytes(&self.closed[i]);
                kept.push(c);
                assert(kept@.map_values(|c: Vec<u8>| c@) =~= before.push(cv[i as int]));
            } else {
                assert(kept@.map_values(|c: Vec<u8>| c@) =~= before);
            }
        }
        assert(cv.take(cv.len() as int) =~= cv);
        self.closed = kept;
    }

    /// Rebuilds the entries from the visible changes (indices into `changes`), keeping the
    /// selection on the same path where it still shows. With `reveal`, the directories that
    /// `selected` lies in are unfolded first and the selection follows `selected`; otherwise
    /// it stays on the current entry. While searching, no directory is folded.
    pub fn rebuild(
        &mut self,
        changes: &Vec<Change>,
        visible: &Vec<usize>,
        searching: bool,
        selected: Option<&Vec<u8>>,
        reveal: bool,
    )
        requires
            forall|k: int| 0 <= k < visible@.len() ==> (#[trigger] visible@[k]) < changes@.len(),
        ensures
            final(self).folded() == (match selected {
                Some(p) => if reveal {
                    old(self).folded().filter(not_above(p@))
                } else {
                    old(self).folded()
                },
                None => old(self).folded(),
            }),
            entries_view(final(self).entries@) == all_entries(
                visible_items(changes@, visible@),
                final(self).folded(),
                searching,
            ),
            opt_int(final(self).selected) == selection_after(
                entries_view(final(self).entries@),
                kept_path(old(self).current_spec(), opt_ref_bytes(selected), reveal),
                old(self).selected,
            ),
    {
        let ghost old_current = self.current_spec();
        let keep: Option<Vec<u8>> = if reveal {
            if let Some(sel) = selected {
                self.unfold_above(sel);
            }
            match selected {
                Some(s) => Some(copy_bytes(s)),
                None => None,
            }
        } else {
            match self.current() {
                Some(e) => Some(copy_bytes(&e.path)),
                None => match selected {
                    Some(s) => Some(copy_bytes(s)),
                    None => None,
                },
            }
        };
        assert(opt_bytes(keep) == kept_path(old_current, opt_ref_bytes(selected), reveal));
        let ghost items = visible_items(changes@, visible@);
        let mut comps: Vec<Vec<Vec<u8>>> = Vec::new();
        let mut idx: Vec<usize> = Vec::new();
        for k in 0..visible.len()
            invariant
                items == visible_items(changes@, visible@),
                forall|j: int| 0 <= j < visible@.len() ==> (#[trigger] visible@[j]) < changes@.len(),
                comps@.len() == k,
                idx@.len() == k,
                items_view(comps@, idx@) == items.take(k as int),
        {
            let i = visible[k];
            let c = path_components(&changes[i].path);
            comps.push(c);
            idx.push(i);
            assert(items_view(comps@, idx@) =~= items.take(k + 1));
        }
        assert(items.take(visible@.len() as int) =~= items);
        let limit = max_len_exec(&comps, &idx);
        let fuel = if limit < usize::MAX {
            limit + 1
        } else {
            limit
        };
        let root: Vec<Vec<u8>> = Vec::new();
        assert(root@.map_values(|c: Vec<u8>| c@) =~= Seq::<Seq<u8>>::empty());
        let mut entries: Vec<Entry> = Vec::new();
        append_tree(&comps, &idx, &self.closed, searching, &root, 0, fuel, &mut entries);
        assert(entries_view(Seq::<Entry>::empty()) =~= Seq::<EntrySpec>::empty());
        assert(Seq::<EntrySpec>::empty() + all_entries(items, self.folded(), searching) =~= all_entries(
            items,
            self.folded(),
            searching,
        ));
        let previous = self.selected;
        self.entries = entries;
        let len = self.entries.len();
        if len == 0 {
            self.selected = None;
        } else {
            let i = match keep_position(&self.entries, &keep) {
                Some(i) => i,
                None => match previous {
                    Some(p) => p,
                    None => 0,
                },
            };
            self.selected = Some(
                if i < len - 1 {
                    i
                } else {
                    len - 1
                },
            );
        }
    }

    /// Moves the selection by `delta`, stopping at the first and the last entry.
    pub fn move_by(&mut self, delta: isize)
        ensures
            final(self).entries == old(self).entries,
            final(self).folded() == old(self).folded(),
            old(self).entries@.len() == 0 ==> final(self).selected == old(self).selected,
            old(self).entries@.len() > 0 ==> final(self).selected == Some(
                clamp_move(
                    match old(self).selected {
                        Some(i) => i as int,
                        None => 0,
                    },
                    delta as int,
                    old(self).entries@.len() - 1,
                ) as usize,
            ),
    {
        if self.entries.len() > 0 {
            let current = match self.selected {
                Some(i) => i,
                None => 0,
            };
            self.selected = Some(clamped_move(current, delta, self.entries.len() - 1));
        }
    }

    /// Unfolds the selected entry's path.
    pub fn expand(&mut self)
        ensures
            final(self).entries == old(self).entries,
            final(self).selected == old(self).selected,
            match old(self).current_spec() {
                Some(e) => final(self).folded() == old(self).folded().filter(other_than(components(e.0))),
                None => final(self).folded() == old(self).folded(),
            },
            match old(self).current_spec() {
                Some(e) => !closed_has(final(self).folded(), components(e.0)),
                None => true,
            },
    {
        let path = match self.current() {
            Some(e) => copy_bytes(&e.path),
            None => return,
        };
        let ghost cv = self.folded();
        let ghost target = components(path@);
        let ghost pred = other_than(target);
        let pc = path_components(&path);
        let mut kept: Vec<Vec<u8>> = Vec::new();
        for i in 0..self.closed.len()
            invariant
                cv == self.folded(),
                cv == self.closed@.map_values(|c: Vec<u8>| c@),
                pred == other_than(target),
                pc@.map_values(|c: Vec<u8>| c@) == target,
                kept@.map_values(|c: Vec<u8>| c@) == cv.take(i as int).filter(pred),
        {
            reveal_with_fuel(Seq::filter, 1);
            let ghost before = kept@.map_values(|c: Vec<u8>| c@);
            assert(cv.take(i + 1).drop_last() =~= cv.take(i as int));
            let cc = path_components(&self.closed[i]);
            if !comps_eq(&cc, &pc) {
                let c = copy_bytes(&self.closed[i]);
                kept.push(c);
                assert(kept@.map_values(|c: Vec<u8>| c@) =~= before.push(cv[i as int]));
            } else {
                assert(kept@.map_values(|c: Vec<u8>| c@) =~= before);
            }
        }
        assert(cv.take(cv.len() as int) =~= cv);
        self.closed = kept;
        proof {
            let f = self.folded();
            assert forall|j: int| 0 <= j < f.len() implies components(#[trigger] f[j]) != target by {
                cv.filter_lemma(pred);
            }
        }
    }

    /// Folds the selected directory; on a file or a folded directory, selects the nearest
    /// directory above it instead.
    pub fn collapse_or_parent(&mut self)
        ensures
            final(self).entries == old(self).entries,
            match old(self).current_spec() {
                None => final(self).selected == old(self).selected && final(self).folded() == old(
                    self,
                ).folded(),
                Some(e) => if e.3 is None && !e.4 {
                    final(self).selected == old(self).selected && final(self).folded() == (if closed_has(
                        old(self).folded(),
                        components(e.0),
                    ) {
                        old(self).folded()
                    } else {
                        old(self).folded().push(e.0)
                    })
                } else {
                    final(self).folded() == old(self).folded() && final(self).selected == (match parent_of(
                        entries_view(old(self).entries@),
                        components(e.0),
                        old(self).entries@.len() as int,
                    ) {
                        Some(j) => Some(j as usize),
                        None => old(self).selected,
                    })
                },
            },
    {
        let ghost ev = entries_view(self.entries@);
        let (path, is_dir, collapsed) = match self.current() {
            Some(e) => (copy_bytes(&e.path), e.change.is_none(), e.collapsed),
            None => return,
        };
        assert(self.current_spec() matches Some(e) && e.0 == path@ && (e.3 is None) == is_dir && e.4
            == collapsed);
        let pc = path_components(&path);
        if is_dir && !collapsed {
            if !closed_has_exec(&self.closed, &pc) {
                let ghost before = self.folded();
                self.closed.push(path);
                assert(self.folded() =~= before.push(path@));
            }
        } else {
            let mut k = self.entries.len();
            while k > 0
                invariant
                    ev == entries_view(self.entries@),
                    self.entries == old(self).entries,
                    self.closed == old(self).closed,
                    self.selected == old(self).selected,
                    old(self).current_spec() matches Some(e) && e.0 == path@ && !(e.3 is None && !e.4),
                    pc@.map_values(|c: Vec<u8>| c@) == components(path@),
                    k <= self.entries@.len(),
                    parent_of(ev, components(path@), ev.len() as int) == parent_of(
                        ev,
                        components(path@),
                        k as int,
                    ),
                decreases k,
            {
                let cand = &self.entries[k - 1];
                assert(ev[k - 1].0 == cand.path@);
                assert(ev[k - 1].3 is None <==> cand.change is None);
                if cand.change.is_none() {
                    let cc = path_components(&cand.path);
                    if !comps_eq(&cc, &pc) && has_prefix_exec(&pc, &cc) {
                        assert(parent_of(ev, components(path@), k as int) == Some(k - 1));
                        self.selected = Some(k - 1);
                        return;
                    }
                }
                k -= 1;
            }
        }
    }
}

} // verus!

verus! {

impl Default for FileTree {
    /// An empty tree with nothing selected or folded.
    fn default() -> (res: Self)
        ensures
            res.entries@.len() == 0,
            res.selected is None,
            res.folded().len() == 0,
    {
        FileTree::new()
    }
}

} // verus!
