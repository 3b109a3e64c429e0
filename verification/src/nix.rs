use vstd::prelude::*;
use vstd::string::{StrSliceExecFns, StringExecFns};

use crate::json::{
    json_error_category, json_error_message, json_object_keys, JsonErrorCategory, json_object_len, json_string_list, json_top, parse_json_top,
    parse_string_list, JsonTop,
};
use vstd::utf8::encode_utf8;
use crate::text::{
    digit_pred, digits_end, eq_pred, is_digit, lemma_position, lemma_position_facts, lemma_span,
    lemma_span_facts, decimal, push_decimal, lemma_decimal_denotes, parse_unsigned, lemma_lex_lt_irreflexive, lemma_lex_lt_total,
    lemma_lex_lt_transitive, lex_less, lex_lt, chars_equal, find_char_in, find_digit_in, position, push_char, span, split_once,
    string_from_range, to_chars,
};

verus! {

/// `/nix/store/`, the directory that store paths live in.
pub open spec fn store_prefix() -> Seq<char> {
    seq!['/', 'n', 'i', 'x', '/', 's', 't', 'o', 'r', 'e', '/']
}

/// The name part of a store path `/nix/store/<hash>-<name>`: what follows the
/// first `-` after the store directory.
pub open spec fn spec_strip_nix_hash(path: Seq<char>) -> Option<Seq<char>> {
    if store_prefix().is_prefix_of(path) {
        match split_once(path.skip(store_prefix().len() as int), '-') {
            Some((_hash, name)) => Some(name),
            None => None,
        }
    } else {
        None
    }
}

/// Major and minor version of a version string such as `2.35.0pre2026`: the
/// leading digits up to the first `.`, and the first run of digits after it.
pub open spec fn spec_major_minor(v: Seq<char>) -> Option<(Seq<char>, Seq<char>)> {
    let k = span(v, digit_pred()) as int;
    if 0 < k < v.len() && v[k] == '.' {
        let rest = v.skip(k + 1);
        match position(rest, digit_pred()) {
            Some(j) => Some((v.take(k), rest.skip(j).take(span(rest.skip(j), digit_pred()) as int))),
            None => None,
        }
    } else {
        None
    }
}

pub open spec fn nix_name() -> Seq<char> {
    seq!['n', 'i', 'x']
}

pub open spec fn lix_name() -> Seq<char> {
    seq!['l', 'i', 'x']
}

/// `<package>-<major>.<minor>` for `<package>-<version>` where the package is
/// `nix` or `lix` and the version has a major and a minor number.
pub open spec fn spec_standardize_version(s: Seq<char>) -> Option<Seq<char>> {
    match split_once(s, '-') {
        Some((package, version_part)) => {
            if package == nix_name() || package == lix_name() {
                match spec_major_minor(version_part) {
                    Some((major, minor)) => Some(package + seq!['-'] + major + seq!['.'] + minor),
                    None => None,
                }
            } else {
                None
            }
        },
        None => None,
    }
}

/// Whether `p` is a prefix of `s`.
fn starts_with_chars(s: &Vec<char>, p: &Vec<char>) -> (r: bool)
    ensures
        r == p@.is_prefix_of(s@),
{
    if p.len() > s.len() {
        return false;
    }
    let mut i: usize = 0;
    while i < p.len()
        invariant
            i <= p.len() <= s.len(),
            forall|k: int| 0 <= k < i ==> p@[k] == s@[k],
        decreases p.len() - i,
    {
        if p[i] != s[i] {
            return false;
        }
        i = i + 1;
    }
    assert(p@ =~= s@.subrange(0, p@.len() as int));
    true
}

fn store_prefix_chars() -> (v: Vec<char>)
    ensures
        v@ == store_prefix(),
{
    let v = vec!['/', 'n', 'i', 'x', '/', 's', 't', 'o', 'r', 'e', '/'];
    assert(v@ =~= store_prefix());
    v
}

/// Index at which the name of store path `cs` starts.
fn name_start(cs: &Vec<char>) -> (res: Option<usize>)
    ensures
        match spec_strip_nix_hash(cs@) {
            Some(name) => res is Some && res->0 <= cs.len() && cs@.skip(res->0 as int) == name,
            None => res is None,
        },
{
    let prefix = store_prefix_chars();
    if !starts_with_chars(cs, &prefix) {
        return None;
    }
    let ghost rest = cs@.skip(11);
    assert(rest == cs@.subrange(11, cs.len() as int));
    match find_char_in(cs, 11, cs.len(), '-') {
        Some(j) => {
            assert(position(rest, eq_pred('-')) == Some(j - 11));
            assert(cs@.skip(j + 1) =~= rest.skip(j - 11 + 1));
            Some(j + 1)
        },
        None => {
            assert(position(rest, eq_pred('-')) is None);
            None
        },
    }
}

/// The name part of a store path `/nix/store/<hash>-<name>`, or `None` where
/// `path` is not such a path.
pub fn strip_nix_hash(path: &str) -> (res: Option<&str>)
    ensures
        match spec_strip_nix_hash(path@) {
            Some(name) => res is Some && res->0@ == name,
            None => res is None,
        },
{
    let cs = to_chars(path);
    match name_start(&cs) {
        Some(a) => {
            let name = path.substring_char(a, cs.len());
            assert(path@.subrange(a as int, cs.len() as int) == cs@.skip(a as int));
            Some(name)
        },
        None => None,
    }
}

/// Bounds of the major (`a..k`) and minor (`j..m`) numbers of the version
/// `cs[a..n]`.
fn major_minor_bounds(cs: &Vec<char>, a: usize, n: usize) -> (res: Option<(usize, usize, usize)>)
    requires
        a <= n <= cs.len(),
    ensures
        match spec_major_minor(cs@.subrange(a as int, n as int)) {
            Some((major, minor)) => res matches Some((k, j, m)) && a <= k <= j <= m <= n
                && cs@.subrange(a as int, k as int) == major && cs@.subrange(j as int, m as int) == minor,
            None => res is None,
        },
{
    let ghost v = cs@.subrange(a as int, n as int);
    let k = digits_end(cs, a, n);
    if !(k > a && k < n && cs[k] == '.') {
        proof {
            if k < n {
                assert(v[k - a] == cs@[k as int]);
            }
        }
        return None;
    }
    assert(v[k - a] == cs@[k as int]);
    let ghost rest = v.skip(k - a + 1);
    assert(rest == cs@.subrange(k + 1, n as int));
    let j = match find_digit_in(cs, k + 1, n) {
        Some(j) => j,
        None => {
            return None;
        },
    };
    let m = digits_end(cs, j, n);
    assert(rest.skip(j - (k + 1)) == cs@.subrange(j as int, n as int));
    assert(cs@.subrange(a as int, k as int) == v.take(k - a));
    assert(cs@.subrange(j as int, m as int) == rest.skip(j - (k + 1)).take(m - j));
    Some((k, j, m))
}

/// `<package>-<major>.<minor>` for a `nix` or `lix` version string such as
/// `nix-2.35.0pre20260413_bec8cdc` (giving `nix-2.35`); `None` for any other
/// package or where the version has no major and minor number.
pub fn standardize_version(version_str: &str) -> (res: Option<String>)
    ensures
        match spec_standardize_version(version_str@) {
            Some(v) => res is Some && res->0@ == v,
            None => res is None,
        },
{
    let cs = to_chars(version_str);
    let n = cs.len();
    let dash = match find_char_in(&cs, 0, n, '-') {
        Some(d) => d,
        None => {
            assert(cs@.subrange(0, n as int) == cs@);
            return None;
        },
    };
    assert(cs@.subrange(0, n as int) == cs@);
    let ghost package = cs@.take(dash as int);
    assert(package == cs@.subrange(0, dash as int));
    let is_known = dash == 3 && n > 3 && cs[1] == 'i' && cs[2] == 'x' && (cs[0] == 'n' || cs[0] == 'l');
    if !is_known {
        proof {
            if package == nix_name() || package == lix_name() {
                assert(package.len() == 3);
                assert(package[0] == cs@[0] && package[1] == cs@[1] && package[2] == cs@[2]);
            }
        }
        return None;
    }
    assert(package =~= nix_name() || package =~= lix_name());
    let a = dash + 1;
    assert(cs@.skip(dash + 1) == cs@.subrange(a as int, n as int));
    match major_minor_bounds(&cs, a, n) {
        Some((k, j, m)) => {
            let mut out = string_from_range(&cs, 0, a);
            assert(out@ == package + seq!['-']);
            let major = string_from_range(&cs, a, k);
            out.append(major.as_str());
            push_char(&mut out, '.');
            let minor = string_from_range(&cs, j, m);
            out.append(minor.as_str());
            Some(out)
        },
        None => None,
    }
}

/// The text of each string.
pub open spec fn views(v: Seq<String>) -> Seq<Seq<char>> {
    v.map_values(|x: String| x@)
}

/// The key that store paths are ordered by: the name after the hash, or the
/// empty string for a path that has none.
pub open spec fn name_key(path: Seq<char>) -> Seq<char> {
    match spec_strip_nix_hash(path) {
        Some(name) => name,
        None => seq![],
    }
}

/// Where a path with name key `k` goes in `sorted`: after every path whose key
/// is not greater than `k`.
pub open spec fn insertion_point(sorted: Seq<Seq<char>>, k: Seq<char>) -> nat
    decreases sorted.len(),
{
    if sorted.len() == 0 {
        0
    } else if lex_lt(k, name_key(sorted[0])) {
        0
    } else {
        1 + insertion_point(sorted.drop_first(), k)
    }
}

/// `paths` stably sorted by name key (what `sort_by` on the keys gives).
pub open spec fn spec_sort_nix_paths(paths: Seq<Seq<char>>) -> Seq<Seq<char>>
    decreases paths.len(),
{
    if paths.len() == 0 {
        paths
    } else {
        let r = spec_sort_nix_paths(paths.drop_last());
        r.insert(insertion_point(r, name_key(paths.last())) as int, paths.last())
    }
}

proof fn lemma_insertion_point(r: Seq<Seq<char>>, k: Seq<char>, j: int)
    requires
        0 <= j <= r.len(),
        forall|m: int| 0 <= m < j ==> !lex_lt(k, name_key(#[trigger] r[m])),
        j == r.len() || lex_lt(k, name_key(r[j])),
    ensures
        insertion_point(r, k) == j,
    decreases r.len(),
{
    if r.len() > 0 && j > 0 {
        assert(!lex_lt(k, name_key(r[0])));
        assert forall|m: int| 0 <= m < j - 1 implies !lex_lt(k, name_key(#[trigger] r.drop_first()[m])) by {
            assert(r.drop_first()[m] == r[m + 1]);
        }
        lemma_insertion_point(r.drop_first(), k, j - 1);
    }
}

proof fn lemma_insertion_point_facts(r: Seq<Seq<char>>, k: Seq<char>)
    ensures
        insertion_point(r, k) <= r.len(),
        forall|m: int| 0 <= m < insertion_point(r, k) ==> !lex_lt(k, name_key(#[trigger] r[m])),
        insertion_point(r, k) == r.len() || lex_lt(k, name_key(r[insertion_point(r, k) as int])),
    decreases r.len(),
{
    if r.len() > 0 && !lex_lt(k, name_key(r[0])) {
        lemma_insertion_point_facts(r.drop_first(), k);
        assert forall|m: int| 0 <= m < insertion_point(r, k) implies !lex_lt(k, name_key(#[trigger] r[m])) by {
            if m > 0 {
                assert(r[m] == r.drop_first()[m - 1]);
            }
        }
        if insertion_point(r, k) < r.len() {
            assert(r[insertion_point(r, k) as int] == r.drop_first()[insertion_point(r.drop_first(), k) as int]);
        }
    }
}

/// The name key of `path`, as characters.
fn name_key_chars(path: &String) -> (key: Vec<char>)
    ensures
        key@ == name_key(path@),
{
    let cs = to_chars(path.as_str());
    let mut key: Vec<char> = Vec::new();
    match name_start(&cs) {
        Some(a) => {
            let mut j: usize = a;
            while j < cs.len()
                invariant
                    a <= j <= cs.len(),
                    key@ == cs@.subrange(a as int, j as int),
                decreases cs.len() - j,
            {
                key.push(cs[j]);
                j = j + 1;
            }
            assert(key@ == cs@.skip(a as int));
        },
        None => {},
    }
    key
}

/// Orders store paths by the name after their hash (`nix-2.18.10`,
/// `nix-2.19.8`, ...), keeping the given order among paths of equal name; a path
/// that is not a store path has the empty name.
pub fn sort_nix_paths(paths: Vec<String>) -> (res: Vec<String>)
    ensures
        views(res@) == spec_sort_nix_paths(views(paths@)),
{
    let mut sorted: Vec<String> = Vec::new();
    let mut keys: Vec<Vec<char>> = Vec::new();
    let mut i: usize = 0;
    while i < paths.len()
        invariant
            i <= paths.len(),
            views(sorted@) == spec_sort_nix_paths(views(paths@).take(i as int)),
            keys.len() == sorted.len(),
            forall|m: int| 0 <= m < keys.len() ==> #[trigger] keys@[m]@ == name_key(sorted@[m]@),
        decreases paths.len() - i,
    {
        let path = paths[i].clone();
        let key = name_key_chars(&path);
        let mut j: usize = 0;
        while j < keys.len() && !lex_less(&key, &keys[j])
            invariant
                j <= keys.len() == sorted.len(),
                key@ == name_key(path@),
                forall|m: int| 0 <= m < keys.len() ==> #[trigger] keys@[m]@ == name_key(sorted@[m]@),
                forall|m: int| 0 <= m < j ==> !lex_lt(key@, name_key(#[trigger] views(sorted@)[m])),
            decreases keys.len() - j,
        {
            assert(views(sorted@)[j as int] == sorted@[j as int]@);
            j = j + 1;
        }
        let ghost before = views(sorted@);
        let ghost prefix = views(paths@).take(i as int);
        proof {
            if j < keys.len() {
                assert(before[j as int] == sorted@[j as int]@);
            }
            lemma_insertion_point(before, key@, j as int);
            assert(views(paths@).take(i + 1).drop_last() == prefix);
            assert(views(paths@).take(i + 1).last() == path@);
        }
        let ghost old_keys = keys@;
        let ghost old_sorted = sorted@;
        sorted.insert(j, path);
        keys.insert(j, key);
        proof {
            assert(views(sorted@) =~= before.insert(j as int, path@));
            assert forall|m: int| 0 <= m < keys.len() implies #[trigger] keys@[m]@ == name_key(sorted@[m]@) by {
                if m < j {
                    assert(keys@[m] == old_keys[m] && sorted@[m] == old_sorted[m]);
                } else if m > j {
                    assert(keys@[m] == old_keys[m - 1] && sorted@[m] == old_sorted[m - 1]);
                }
            }
        }
        i = i + 1;
    }
    assert(views(paths@).take(paths.len() as int) == views(paths@));
    sorted
}

/// Paths in order of name key: no path has a smaller key than one before it.
pub open spec fn sorted_by_name(r: Seq<Seq<char>>) -> bool {
    forall|i: int, j: int| 0 <= i < j < r.len() ==> !lex_lt(name_key(#[trigger] r[j]), name_key(#[trigger] r[i]))
}

pub open spec fn has_name(k: Seq<char>) -> spec_fn(Seq<char>) -> bool {
    |p: Seq<char>| name_key(p) == k
}

proof fn lemma_sorted(paths: Seq<Seq<char>>)
    ensures
        sorted_by_name(spec_sort_nix_paths(paths)),
        spec_sort_nix_paths(paths).len() == paths.len(),
    decreases paths.len(),
{
    if paths.len() > 0 {
        let r = spec_sort_nix_paths(paths.drop_last());
        lemma_sorted(paths.drop_last());
        let x = paths.last();
        let kx = name_key(x);
        let p = insertion_point(r, kx) as int;
        lemma_insertion_point_facts(r, kx);
        let r2 = r.insert(p, x);
        r.insert_ensures(p, x);
        assert forall|i: int, j: int| 0 <= i < j < r2.len() implies !lex_lt(
            name_key(#[trigger] r2[j]),
            name_key(#[trigger] r2[i]),
        ) by {
            if j < p {
                assert(r2[i] == r[i] && r2[j] == r[j]);
            } else if j == p {
                assert(r2[i] == r[i]);
                assert(!lex_lt(kx, name_key(r[i])));
            } else if i < p {
                assert(r2[i] == r[i] && r2[j] == r[j - 1]);
                assert(!lex_lt(name_key(r[j - 1]), name_key(r[i])));
            } else if i == p {
                assert(r2[j] == r[j - 1]);
                let kp = name_key(r[p]);
                let kj = name_key(r[j - 1]);
                assert(lex_lt(kx, kp));
                if j - 1 > p {
                    assert(!lex_lt(kj, kp));
                    lemma_lex_lt_total(kj, kp);
                    if kj != kp {
                        lemma_lex_lt_transitive(kx, kp, kj);
                    }
                }
                lemma_lex_lt_total(kx, kj);
            } else {
                assert(r2[i] == r[i - 1] && r2[j] == r[j - 1]);
                assert(!lex_lt(name_key(r[j - 1]), name_key(r[i - 1])));
            }
        }
    }
}

proof fn lemma_none_has_name(b: Seq<Seq<char>>, k: Seq<char>)
    requires
        forall|m: int| 0 <= m < b.len() ==> name_key(#[trigger] b[m]) != k,
    ensures
        b.filter(has_name(k)) == Seq::<Seq<char>>::empty(),
    decreases b.len(),
{
    reveal(Seq::filter);
    if b.len() > 0 {
        assert forall|m: int| 0 <= m < b.drop_last().len() implies name_key(#[trigger] b.drop_last()[m]) != k by {
            assert(b.drop_last()[m] == b[m]);
        }
        lemma_none_has_name(b.drop_last(), k);
        assert(name_key(b[b.len() - 1]) != k);
    }
}

proof fn lemma_stable(paths: Seq<Seq<char>>, k: Seq<char>)
    ensures
        spec_sort_nix_paths(paths).filter(has_name(k)) == paths.filter(has_name(k)),
    decreases paths.len(),
{
    reveal(Seq::filter);
    broadcast use Seq::filter_distributes_over_add;

    if paths.len() > 0 {
        lemma_stable(paths.drop_last(), k);
        lemma_sorted(paths.drop_last());
        let pred = has_name(k);
        let r = spec_sort_nix_paths(paths.drop_last());
        let x = paths.last();
        let kx = name_key(x);
        let p = insertion_point(r, kx) as int;
        lemma_insertion_point_facts(r, kx);
        let a = r.subrange(0, p);
        let b = r.subrange(p, r.len() as int);
        assert(r == a + b);
        assert(r.insert(p, x) == a.push(x) + b);
        assert(a.push(x).drop_last() == a);
        if kx == k {
            assert forall|m: int| 0 <= m < b.len() implies name_key(#[trigger] b[m]) != k by {
                assert(b[m] == r[p + m]);
                let kp = name_key(r[p]);
                let km = name_key(r[p + m]);
                if m > 0 {
                    assert(!lex_lt(km, kp));
                    lemma_lex_lt_total(km, kp);
                    if km != kp {
                        lemma_lex_lt_transitive(kx, kp, km);
                    }
                }
                lemma_lex_lt_irreflexive(kx);
            }
            lemma_none_has_name(b, k);
            assert(b.filter(pred) == Seq::<Seq<char>>::empty());
            assert(r.filter(pred) == a.filter(pred) + b.filter(pred));
            assert(a.filter(pred) + b.filter(pred) == a.filter(pred));
            assert(a.push(x).filter(pred) == a.filter(pred).push(x));
            assert(a.filter(pred).push(x) + b.filter(pred) == a.filter(pred).push(x));
        } else {
            assert(a.push(x).filter(pred) == a.filter(pred));
        }
    }
}

proof fn lemma_permutation(paths: Seq<Seq<char>>)
    ensures
        spec_sort_nix_paths(paths).to_multiset() == paths.to_multiset(),
    decreases paths.len(),
{
    broadcast use vstd::seq_lib::group_to_multiset_ensures;

    if paths.len() > 0 {
        lemma_permutation(paths.drop_last());
        let r = spec_sort_nix_paths(paths.drop_last());
        let x = paths.last();
        lemma_insertion_point_facts(r, name_key(x));
        assert(paths == paths.drop_last().push(x));
    }
}

/// `sort_nix_paths` is a stable sort by name: its result is in order of name
/// key, holds the same paths as its argument, each as often, and the paths of
/// any one name come in the order that they had.
pub proof fn lemma_sort_nix_paths_is_stable_sort(paths: Seq<Seq<char>>)
    ensures
        sorted_by_name(spec_sort_nix_paths(paths)),
        spec_sort_nix_paths(paths).to_multiset() == paths.to_multiset(),
        forall|k: Seq<char>| #[trigger] spec_sort_nix_paths(paths).filter(has_name(k)) == paths.filter(has_name(k)),
{
    lemma_sorted(paths);
    lemma_permutation(paths);
    assert forall|k: Seq<char>| #[trigger] spec_sort_nix_paths(paths).filter(has_name(k)) == paths.filter(has_name(k)) by {
        lemma_stable(paths, k);
    }
}

/// Strictly increasing in lexicographic order (so no string occurs twice).
pub open spec fn strictly_sorted(r: Seq<Seq<char>>) -> bool {
    forall|i: int, j: int| 0 <= i < j < r.len() ==> lex_lt(#[trigger] r[i], #[trigger] r[j])
}

/// Index of the first string in `r` that is not smaller than `x`.
pub open spec fn lower_bound(r: Seq<Seq<char>>, x: Seq<char>) -> nat
    decreases r.len(),
{
    if r.len() == 0 || !lex_lt(r[0], x) {
        0
    } else {
        1 + lower_bound(r.drop_first(), x)
    }
}

/// The distinct strings of `s` in lexicographic order (what `sort` followed by
/// `dedup` gives).
pub open spec fn spec_sort_dedup(s: Seq<Seq<char>>) -> Seq<Seq<char>>
    decreases s.len(),
{
    if s.len() == 0 {
        s
    } else {
        let r = spec_sort_dedup(s.drop_last());
        if r.contains(s.last()) {
            r
        } else {
            r.insert(lower_bound(r, s.last()) as int, s.last())
        }
    }
}

proof fn lemma_lower_bound(r: Seq<Seq<char>>, x: Seq<char>, j: int)
    requires
        0 <= j <= r.len(),
        forall|m: int| 0 <= m < j ==> lex_lt(#[trigger] r[m], x),
        j == r.len() || !lex_lt(r[j], x),
    ensures
        lower_bound(r, x) == j,
    decreases r.len(),
{
    if r.len() > 0 && j > 0 {
        assert(lex_lt(r[0], x));
        assert forall|m: int| 0 <= m < j - 1 implies lex_lt(#[trigger] r.drop_first()[m], x) by {
            assert(r.drop_first()[m] == r[m + 1]);
        }
        lemma_lower_bound(r.drop_first(), x, j - 1);
    }
}

proof fn lemma_lower_bound_facts(r: Seq<Seq<char>>, x: Seq<char>)
    ensures
        lower_bound(r, x) <= r.len(),
        forall|m: int| 0 <= m < lower_bound(r, x) ==> lex_lt(#[trigger] r[m], x),
        lower_bound(r, x) == r.len() || !lex_lt(r[lower_bound(r, x) as int], x),
    decreases r.len(),
{
    if r.len() > 0 && lex_lt(r[0], x) {
        lemma_lower_bound_facts(r.drop_first(), x);
        assert forall|m: int| 0 <= m < lower_bound(r, x) implies lex_lt(#[trigger] r[m], x) by {
            if m > 0 {
                assert(r[m] == r.drop_first()[m - 1]);
            }
        }
        if lower_bound(r, x) < r.len() {
            assert(r[lower_bound(r, x) as int] == r.drop_first()[lower_bound(r.drop_first(), x) as int]);
        }
    }
}

/// The distinct strings of `s` are strictly sorted and are the strings of `s`.
pub proof fn lemma_sort_dedup_ensures(s: Seq<Seq<char>>)
    ensures
        strictly_sorted(spec_sort_dedup(s)),
        spec_sort_dedup(s).to_set() == s.to_set(),
    decreases s.len(),
{
    if s.len() > 0 {
        lemma_sort_dedup_ensures(s.drop_last());
        let r = spec_sort_dedup(s.drop_last());
        let x = s.last();
        assert(s == s.drop_last().push(x));
        if r.contains(x) {
            assert(s.to_set() =~= s.drop_last().to_set().insert(x));
        } else {
            let j = lower_bound(r, x) as int;
            lemma_lower_bound_facts(r, x);
            let r2 = r.insert(j, x);
            r.insert_ensures(j, x);
            if j < r.len() {
                lemma_lex_lt_total(r[j], x);
            }
            assert forall|a: int, b: int| 0 <= a < b < r2.len() implies lex_lt(#[trigger] r2[a], #[trigger] r2[b]) by {
                if b < j {
                    assert(r2[a] == r[a] && r2[b] == r[b]);
                } else if b == j {
                    assert(r2[a] == r[a]);
                } else if a < j {
                    assert(r2[a] == r[a] && r2[b] == r[b - 1]);
                } else if a == j {
                    assert(r2[b] == r[b - 1]);
                    if b - 1 > j {
                        assert(lex_lt(r[j], r[b - 1]));
                        lemma_lex_lt_transitive(x, r[j], r[b - 1]);
                    }
                } else {
                    assert(r2[a] == r[a - 1] && r2[b] == r[b - 1]);
                }
            }
            assert forall|y: Seq<char>| r2.contains(y) <==> r.contains(y) || y == x by {
                if r2.contains(y) {
                    let m = choose|m: int| 0 <= m < r2.len() && r2[m] == y;
                    if m < j {
                        assert(r[m] == y);
                    } else if m > j {
                        assert(r[m - 1] == y);
                    }
                }
                if r.contains(y) {
                    let m = choose|m: int| 0 <= m < r.len() && r[m] == y;
                    if m < j {
                        assert(r2[m] == y);
                    } else {
                        assert(r2[m + 1] == y);
                    }
                }
                if y == x {
                    assert(r2[j] == y);
                }
            }
            assert(r2.to_set() =~= r.to_set().insert(x));
            assert(s.to_set() =~= s.drop_last().to_set().insert(x));
        }
    }
}

/// The distinct paths of `paths`, in lexicographic order.
pub fn sort_dedup(paths: &Vec<String>) -> (res: Vec<String>)
    ensures
        views(res@) == spec_sort_dedup(views(paths@)),
{
    let mut sorted: Vec<String> = Vec::new();
    let mut chars: Vec<Vec<char>> = Vec::new();
    let mut i: usize = 0;
    while i < paths.len()
        invariant
            i <= paths.len(),
            views(sorted@) == spec_sort_dedup(views(paths@).take(i as int)),
            chars.len() == sorted.len(),
            forall|m: int| 0 <= m < chars.len() ==> #[trigger] chars@[m]@ == sorted@[m]@,
        decreases paths.len() - i,
    {
        let ghost before = views(sorted@);
        proof {
            lemma_sort_dedup_ensures(views(paths@).take(i as int));
            assert(views(paths@).take(i + 1).drop_last() == views(paths@).take(i as int));
            assert(views(paths@).take(i + 1).last() == paths@[i as int]@);
        }
        let path = paths[i].clone();
        let x = to_chars(path.as_str());
        let mut j: usize = 0;
        while j < chars.len() && lex_less(&chars[j], &x)
            invariant
                j <= chars.len() == sorted.len(),
                before == views(sorted@),
                forall|m: int| 0 <= m < chars.len() ==> #[trigger] chars@[m]@ == sorted@[m]@,
                forall|m: int| 0 <= m < j ==> lex_lt(#[trigger] before[m], x@),
            decreases chars.len() - j,
        {
            j = j + 1;
        }
        proof {
            if j < chars.len() {
                assert(before[j as int] == chars@[j as int]@);
            }
            lemma_lower_bound(before, x@, j as int);
        }
        let present = j < chars.len() && chars_equal(&chars[j], &x);
        proof {
            if present {
                assert(before[j as int] == x@);
                assert(before.contains(x@));
            } else if before.contains(x@) {
                let m = choose|m: int| 0 <= m < before.len() && before[m] == x@;
                lemma_lex_lt_irreflexive(x@);
                if m > j {
                    assert(lex_lt(before[j as int], before[m]));
                    lemma_lex_lt_total(before[j as int], x@);
                }
            }
        }
        if !present {
            let ghost old_chars = chars@;
            let ghost old_sorted = sorted@;
            sorted.insert(j, path);
            chars.insert(j, x);
            proof {
                assert(views(sorted@) =~= before.insert(j as int, x@));
                assert forall|m: int| 0 <= m < chars.len() implies #[trigger] chars@[m]@ == sorted@[m]@ by {
                    if m < j {
                        assert(chars@[m] == old_chars[m] && sorted@[m] == old_sorted[m]);
                    } else if m > j {
                        assert(chars@[m] == old_chars[m - 1] && sorted@[m] == old_sorted[m - 1]);
                    }
                }
            }
        }
        i = i + 1;
    }
    assert(views(paths@).take(paths.len() as int) == views(paths@));
    sorted
}

/// The nix installations to benchmark, from the list of their store paths:
/// each path once, ordered by name (`nix-2.18.10` before `nix-2.19.8`), paths
/// of equal name in lexicographic order.
pub fn order_nix_paths(paths: &Vec<String>) -> (res: Vec<String>)
    ensures
        views(res@) == spec_sort_nix_paths(spec_sort_dedup(views(paths@))),
{
    sort_nix_paths(sort_dedup(paths))
}

/// A JSON input that could not be read; `message` and `category` are the
/// parser's.
pub struct JsonInputError {
    pub message: String,
    pub category: JsonErrorCategory,
}

/// The nix installations listed by the JSON array of store paths `text`,
/// ordered as `order_nix_paths` orders them; an error where `text` is not a
/// JSON array of strings.
pub fn load_nix_paths(text: &str) -> (res: Result<Vec<String>, JsonInputError>)
    ensures
        match json_string_list(text@) {
            Some(list) => res is Ok && views(res->Ok_0@) == spec_sort_nix_paths(spec_sort_dedup(list)),
            None => res is Err,
        },
{
    match parse_string_list(text) {
        Ok(paths) => Ok(order_nix_paths(&paths)),
        Err(e) => Err(JsonInputError { message: json_error_message(&e), category: json_error_category(&e) }),
    }
}

/// The size of the top level of a JSON value: the elements of an array, the
/// entries of an object, the UTF-8 bytes of a string; 0 for any other value.
pub fn value_len(v: &JsonTop) -> (n: usize)
    ensures
        n == match v {
            JsonTop::Array(a) => a@.len() as int,
            JsonTop::Object(o) => json_object_keys(*o).len() as int,
            JsonTop::Text(t) => (encode_utf8(t@).len() as usize) as int,
            JsonTop::Other => 0,
        },
{
    match v {
        JsonTop::Array(a) => a.len(),
        JsonTop::Object(o) => json_object_len(o),
        JsonTop::Text(t) => t.as_str().len(),
        JsonTop::Other => 0,
    }
}

/// The number of attribute paths in the JSON text `text` (its size as
/// `value_len` measures it); an error where `text` is not JSON.
pub fn attrpaths_len(text: &str) -> (res: Result<usize, JsonInputError>)
    ensures
        match json_top(text@) {
            Some((kind, size)) => res matches Ok(n) && n == if kind <= 2 { size } else { 0 },
            None => res is Err,
        },
{
    match parse_json_top(text) {
        Ok(top) => Ok(value_len(&top)),
        Err(e) => Err(JsonInputError { message: json_error_message(&e), category: json_error_category(&e) }),
    }
}

/// `base` joined with the relative path `rel` as `Path::join` joins on Unix:
/// with a `/` between them unless `base` is empty or already ends in `/`.
pub open spec fn join_path(base: Seq<char>, rel: Seq<char>) -> Seq<char> {
    if base.len() > 0 && base.last() != '/' {
        base + seq!['/'] + rel
    } else {
        base + rel
    }
}

/// The arguments of the `nix-env` call that evaluates chunk `chunk` of
/// `chunk_size` attribute paths of nixpkgs at `nixpkgs`, with the attribute
/// paths listed in the file `attrpaths`.
pub open spec fn spec_nix_env_args(nixpkgs: Seq<char>, attrpaths: Seq<char>, chunk_size: nat, chunk: nat) -> Seq<Seq<char>> {
    seq![
        "-f"@, join_path(nixpkgs, "ci/eval/chunk.nix"@),
        "--option"@, "restrict-eval"@, "true"@,
        "--option"@, "allow-import-from-derivation"@, "false"@,
        "--query"@, "--available"@, "--out-path"@, "--json"@, "--meta"@, "--show-trace"@,
        "--arg"@, "chunkSize"@, decimal(chunk_size),
        "--arg"@, "myChunk"@, decimal(chunk),
        "--arg"@, "attrpathFile"@, attrpaths,
        "--arg"@, "systems"@, "[ \"x86_64-linux\" ]"@,
        "--arg"@, "includeBroken"@, "false"@,
        "--argstr"@, "extraNixpkgsConfigJson"@, "{}"@,
        "-I"@, nixpkgs,
        "-I"@, attrpaths,
    ]
}

/// `base` joined with the relative path `rel` (see `join_path`).
fn join_path_string(base: &str, rel: &str) -> (res: String)
    ensures
        res@ == join_path(base@, rel@),
{
    let cs = to_chars(base);
    let mut res = String::from_str(base);
    if cs.len() > 0 && cs[cs.len() - 1] != '/' {
        push_char(&mut res, '/');
    }
    res.append(rel);
    res
}

fn decimal_string(n: usize) -> (res: String)
    ensures
        res@ == decimal(n as nat),
{
    let mut res = String::new();
    push_decimal(&mut res, n);
    assert(res@ == Seq::<char>::empty() + decimal(n as nat));
    res
}

/// The program that evaluates with the nix installation at `nix_path`.
pub fn nix_env_path(nix_path: &str) -> (res: String)
    ensures
        res@ == nix_path@ + "/bin/nix-env"@,
{
    String::from_str(nix_path).concat("/bin/nix-env")
}

/// The arguments of the `nix-env` call that evaluates chunk `chunk` (see
/// `spec_nix_env_args`).
pub fn nix_env_args(nixpkgs: &str, attrpaths: &str, chunk_size: usize, chunk: usize) -> (args: Vec<String>)
    ensures
        views(args@) == spec_nix_env_args(nixpkgs@, attrpaths@, chunk_size as nat, chunk as nat),
{
    let mut args: Vec<String> = Vec::new();
    args.push(String::from_str("-f"));
    args.push(join_path_string(nixpkgs, "ci/eval/chunk.nix"));
    args.push(String::from_str("--option"));
    args.push(String::from_str("restrict-eval"));
    args.push(String::from_str("true"));
    args.push(String::from_str("--option"));
    args.push(String::from_str("allow-import-from-derivation"));
    args.push(String::from_str("false"));
    args.push(String::from_str("--query"));
    args.push(String::from_str("--available"));
    args.push(String::from_str("--out-path"));
    args.push(String::from_str("--json"));
    args.push(String::from_str("--meta"));
    args.push(String::from_str("--show-trace"));
    args.push(String::from_str("--arg"));
    args.push(String::from_str("chunkSize"));
    args.push(decimal_string(chunk_size));
    args.push(String::from_str("--arg"));
    args.push(String::from_str("myChunk"));
    args.push(decimal_string(chunk));
    args.push(String::from_str("--arg"));
    args.push(String::from_str("attrpathFile"));
    args.push(String::from_str(attrpaths));
    args.push(String::from_str("--arg"));
    args.push(String::from_str("systems"));
    args.push(String::from_str("[ \"x86_64-linux\" ]"));
    args.push(String::from_str("--arg"));
    args.push(String::from_str("includeBroken"));
    args.push(String::from_str("false"));
    args.push(String::from_str("--argstr"));
    args.push(String::from_str("extraNixpkgsConfigJson"));
    args.push(String::from_str("{}"));
    args.push(String::from_str("-I"));
    args.push(String::from_str(nixpkgs));
    args.push(String::from_str("-I"));
    args.push(String::from_str(attrpaths));
    assert(views(args@) =~= spec_nix_env_args(nixpkgs@, attrpaths@, chunk_size as nat, chunk as nat));
    args
}

/// The version to report for the nix installation at `nix_path`: the
/// standardized version (`nix-2.35`) of the name in its store path.
pub fn eval_version(nix_path: &str) -> (res: Option<String>)
    ensures
        match spec_strip_nix_hash(nix_path@) {
            Some(name) => match spec_standardize_version(name) {
                Some(v) => res is Some && res->0@ == v,
                None => res is None,
            },
            None => res is None,
        },
{
    match strip_nix_hash(nix_path) {
        Some(name) => standardize_version(name),
        None => None,
    }
}

/// Number of chunks of `chunk_size` attribute paths that `attrpaths_len` paths
/// are split into (the last chunk may be short).
pub fn chunk_count(attrpaths_len: usize, chunk_size: usize) -> (n: usize)
    requires
        attrpaths_len >= 1,
        chunk_size >= 1,
    ensures
        n == (attrpaths_len - 1) / (chunk_size as int) + 1,
        (n - 1) * chunk_size < attrpaths_len <= n * chunk_size,
{
    let n = (attrpaths_len - 1) / chunk_size + 1;
    proof {
        let q = (attrpaths_len - 1) / (chunk_size as int);
        let r = (attrpaths_len - 1) % (chunk_size as int);
        assert(attrpaths_len - 1 == q * chunk_size + r && 0 <= r < chunk_size) by (nonlinear_arith)
            requires
                chunk_size >= 1,
                q == (attrpaths_len - 1) / (chunk_size as int),
                r == (attrpaths_len - 1) % (chunk_size as int),
        ;
        assert((q + 1) * chunk_size == q * chunk_size + chunk_size) by (nonlinear_arith);
    }
    n
}

/// The nix installations that `order_nix_paths` chooses are each listed path
/// exactly once, and in order of name.
pub proof fn lemma_order_nix_paths(paths: Seq<Seq<char>>)
    ensures
        spec_sort_nix_paths(spec_sort_dedup(paths)).no_duplicates(),
        spec_sort_nix_paths(spec_sort_dedup(paths)).to_set() == paths.to_set(),
        sorted_by_name(spec_sort_nix_paths(spec_sort_dedup(paths))),
{
    broadcast use vstd::seq_lib::group_to_multiset_ensures;

    let u = spec_sort_dedup(paths);
    let r = spec_sort_nix_paths(u);
    lemma_sort_dedup_ensures(paths);
    lemma_sort_nix_paths_is_stable_sort(u);
    assert forall|i: int, j: int| 0 <= i < u.len() && 0 <= j < u.len() && i != j implies u[i] != u[j] by {
        if i < j {
            lemma_lex_lt_irreflexive(u[i]);
        } else {
            lemma_lex_lt_irreflexive(u[j]);
        }
    }
    u.lemma_multiset_has_no_duplicates();
    r.lemma_multiset_has_no_duplicates_conv();
    assert forall|x: Seq<char>| r.contains(x) <==> u.contains(x) by {
        assert(r.contains(x) <==> r.to_multiset().count(x) > 0);
        assert(u.contains(x) <==> u.to_multiset().count(x) > 0);
    }
    assert(r.to_set() =~= u.to_set());
}

proof fn lemma_all_digits_span(s: Seq<char>, k: int)
    requires
        0 <= k <= s.len(),
        forall|i: int| 0 <= i < k ==> is_digit(#[trigger] s[i]),
        k == s.len() || !is_digit(s[k]),
    ensures
        span(s, digit_pred()) == k,
{
    assert forall|i: int| 0 <= i < k implies digit_pred()(#[trigger] s[i]) by {}
    lemma_span(s, digit_pred(), k);
}

/// A standardized version: `<package>-<major>.<minor>` with package `nix` or
/// `lix` and major and minor non-empty runs of digits.
pub open spec fn standard_form(package: Seq<char>, major: Seq<char>, minor: Seq<char>) -> bool {
    &&& (package == nix_name() || package == lix_name())
    &&& major.len() >= 1
    &&& minor.len() >= 1
    &&& forall|i: int| 0 <= i < major.len() ==> is_digit(#[trigger] major[i])
    &&& forall|i: int| 0 <= i < minor.len() ==> is_digit(#[trigger] minor[i])
}

/// A result of `standardize_version` is in standard form.
proof fn lemma_standard_parts(s: Seq<char>) -> (parts: (Seq<char>, Seq<char>, Seq<char>))
    requires
        spec_standardize_version(s) is Some,
    ensures
        standard_form(parts.0, parts.1, parts.2),
        spec_standardize_version(s) == Some(parts.0 + seq!['-'] + parts.1 + seq!['.'] + parts.2),
{
    let (package, v) = split_once(s, '-')->0;
    let k = span(v, digit_pred()) as int;
    let rest = v.skip(k + 1);
    let j = position(rest, digit_pred())->0;
    let tail = rest.skip(j);
    let m = span(tail, digit_pred()) as int;
    let major = v.take(k);
    let minor = tail.take(m);
    lemma_span_facts(v, digit_pred());
    lemma_position_facts(rest, digit_pred());
    lemma_span_facts(tail, digit_pred());
    assert(m >= 1) by {
        assert(digit_pred()(tail[0]));
    }
    assert forall|i: int| 0 <= i < major.len() implies is_digit(#[trigger] major[i]) by {
        assert(digit_pred()(v[i]));
    }
    assert forall|i: int| 0 <= i < minor.len() implies is_digit(#[trigger] minor[i]) by {
        assert(digit_pred()(tail[i]));
    }
    (package, major, minor)
}

/// A standardized version followed by text that does not start with a digit
/// standardizes to itself.
proof fn lemma_standardize_form(package: Seq<char>, major: Seq<char>, minor: Seq<char>, x: Seq<char>)
    requires
        standard_form(package, major, minor),
        x.len() == 0 || !is_digit(x[0]),
    ensures
        spec_standardize_version(package + seq!['-'] + major + seq!['.'] + minor + x) == Some(
            package + seq!['-'] + major + seq!['.'] + minor,
        ),
{
    let out = package + seq!['-'] + major + seq!['.'] + minor + x;
    let k = major.len() as int;
    let m = minor.len() as int;
    assert(package.len() == 3);
    assert(out[3] == '-');
    assert forall|i: int| 0 <= i < 3 implies !eq_pred('-')(#[trigger] out[i]) by {
        assert(out[i] == package[i]);
    }
    lemma_position(out, eq_pred('-'), 3);
    let v2 = major + seq!['.'] + minor + x;
    assert(out.take(3) == package);
    assert(out.skip(4) == v2);
    assert forall|i: int| 0 <= i < k implies is_digit(#[trigger] v2[i]) by {
        assert(v2[i] == major[i]);
    }
    assert(v2[k] == '.');
    lemma_all_digits_span(v2, k);
    let r = minor + x;
    assert(v2.skip(k + 1) == r);
    assert(r[0] == minor[0]);
    lemma_position(r, digit_pred(), 0);
    assert(r.skip(0) == r);
    assert forall|i: int| 0 <= i < m implies is_digit(#[trigger] r[i]) by {
        assert(r[i] == minor[i]);
    }
    if m < r.len() {
        assert(r[m] == x[0]);
    }
    lemma_all_digits_span(r, m);
    assert(r.take(m) == minor);
    assert(v2.take(k) == major);
}

/// Standardizing a standardized version changes nothing: `nix-2.35` stays
/// `nix-2.35`.
pub proof fn lemma_standardize_version_idempotent(s: Seq<char>)
    requires
        spec_standardize_version(s) is Some,
    ensures
        spec_standardize_version(spec_standardize_version(s)->0) == spec_standardize_version(s),
{
    let (package, major, minor) = lemma_standard_parts(s);
    lemma_standardize_form(package, major, minor, Seq::empty());
    assert(package + seq!['-'] + major + seq!['.'] + minor + Seq::<char>::empty() == package + seq!['-']
        + major + seq!['.'] + minor);
}

/// A standardized version followed by anything that does not start with a
/// digit (`.10`, `pre2026`, `+1`) standardizes to the version itself:
/// `nix-2.18` followed by `.10` gives `nix-2.18`.
pub proof fn lemma_standardize_version_suffix(s: Seq<char>, x: Seq<char>)
    requires
        spec_standardize_version(s) == Some(s),
        x.len() == 0 || !is_digit(x[0]),
    ensures
        spec_standardize_version(s + x) == Some(s),
{
    let (package, major, minor) = lemma_standard_parts(s);
    lemma_standardize_form(package, major, minor, x);
}

/// The chunk size and chunk number passed to `nix-env` are the decimal
/// notations of the given numbers: parsing them gives those numbers back.
pub proof fn lemma_nix_env_args_numbers(nixpkgs: Seq<char>, attrpaths: Seq<char>, chunk_size: nat, chunk: nat)
    ensures
        spec_nix_env_args(nixpkgs, attrpaths, chunk_size, chunk).len() == 36,
        spec_nix_env_args(nixpkgs, attrpaths, chunk_size, chunk)[15] == "chunkSize"@,
        spec_nix_env_args(nixpkgs, attrpaths, chunk_size, chunk)[18] == "myChunk"@,
        parse_unsigned(spec_nix_env_args(nixpkgs, attrpaths, chunk_size, chunk)[16], chunk_size) == Some(chunk_size),
        parse_unsigned(spec_nix_env_args(nixpkgs, attrpaths, chunk_size, chunk)[19], chunk) == Some(chunk),
{
    lemma_decimal_denotes(chunk_size, chunk_size);
    lemma_decimal_denotes(chunk, chunk);
}

} // verus!
