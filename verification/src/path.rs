//! Resolving artifact keys to file paths below a store's root.
use vstd::prelude::*;
use vstd::string::*;
use vstd::std_specs::iter::IteratorSpec;

verus! {

broadcast use vstd::string::group_string_axioms;

/// The last character of `s`, if any.
fn last_char(s: &str) -> (c: Option<char>)
    ensures
        c == (if s@.len() > 0 { Some(s@[s@.len() - 1]) } else { None::<char> }),
{
    let mut it = s.chars();
    let mut last: Option<char> = None;
    let ghost mut k: int = 0;
    loop
        invariant
            0 <= k <= s@.len(),
            it.obeys_prophetic_iter_laws(),
            it.remaining() == s@.subrange(k, s@.len() as int),
            last == (if k > 0 { Some(s@[k - 1]) } else { None::<char> }),
        decreases s@.len() - k,
    {
        match it.next() {
            Some(c) => {
                last = Some(c);
                proof { k = k + 1; }
            },
            None => {
                return last;
            },
        }
    }
}

/// The characters of `s`, one by one.
fn chars_of(s: &str) -> (v: Vec<char>)
    ensures
        v@ == s@,
{
    let mut it = s.chars();
    let mut v: Vec<char> = Vec::new();
    loop
        invariant
            v@.len() <= s@.len(),
            it.obeys_prophetic_iter_laws(),
            it.remaining() == s@.subrange(v@.len() as int, s@.len() as int),
            v@ == s@.subrange(0, v@.len() as int),
        decreases s@.len() - v@.len(),
    {
        match it.next() {
            Some(c) => {
                v.push(c);
            },
            None => {
                assert(v@ =~= s@);
                return v;
            },
        }
    }
}

/// Whether a `..` component (a step up to the parent directory) starts at
/// position `i` of `path`.
pub open spec fn parent_step_at(path: Seq<char>, i: int) -> bool {
    &&& 0 <= i && i + 2 <= path.len()
    &&& path[i] == '.' && path[i + 1] == '.'
    &&& i == 0 || path[i - 1] == '/'
    &&& i + 2 == path.len() || path[i + 2] == '/'
}

/// Whether a relative path stays where it starts: it is not absolute and
/// none of its components steps up to a parent directory.
pub open spec fn stays_in_store(path: Seq<char>) -> bool {
    &&& !(path.len() > 0 && path[0] == '/')
    &&& forall|i: int| !parent_step_at(path, i)
}

/// The directory part that every file of a store rooted at `base` starts
/// with: the root, followed by a separator unless the root is empty or
/// already ends in one.
pub open spec fn root_prefix(base: Seq<char>) -> Seq<char> {
    if base.len() == 0 || base[base.len() - 1] == '/' {
        base
    } else {
        base + seq!['/']
    }
}

/// The text of `key` between positions `r.0` and `r.1`.
pub open spec fn piece(key: Seq<char>, r: (int, int)) -> Seq<char> {
    key.subrange(r.0, r.1)
}

/// A component that names an entry of a directory: not empty, free of
/// separators, and neither `.` nor `..`.
pub open spec fn is_name(c: Seq<char>) -> bool {
    &&& c.len() > 0
    &&& forall|j: int| 0 <= j < c.len() ==> c[j] != '/'
    &&& c != seq!['.']
    &&& c != seq!['.', '.']
}

/// The components kept so far after reading the component of `key` at `r`:
/// an empty component or `.` changes nothing, `..` drops the last kept
/// component (at the top it stays at the top), any other is kept.
pub open spec fn settle(key: Seq<char>, kept: Seq<(int, int)>, r: (int, int)) -> Seq<(int, int)> {
    let c = piece(key, r);
    if c.len() == 0 || c == seq!['.'] {
        kept
    } else if c == seq!['.', '.'] {
        if kept.len() > 0 {
            kept.drop_last()
        } else {
            kept
        }
    } else {
        kept.push(r)
    }
}

/// After reading the first `i` characters of `key`: the components kept so
/// far (as positions in `key`) and where the current component starts.
pub open spec fn scan(key: Seq<char>, i: int) -> (Seq<(int, int)>, int)
    decreases i,
{
    if i <= 0 {
        (Seq::empty(), 0)
    } else {
        let p = scan(key, i - 1);
        if key[i - 1] == '/' {
            (settle(key, p.0, (p.1, i - 1)), i)
        } else {
            p
        }
    }
}

/// The positions of the components that remain of `key` once `.` and `..`
/// are resolved and empty components dropped.
pub open spec fn key_pieces(key: Seq<char>) -> Seq<(int, int)> {
    let p = scan(key, key.len() as int);
    settle(key, p.0, (p.1, key.len() as int))
}

/// The components that remain of `key` once `.` and `..` are resolved and
/// empty components dropped.
pub open spec fn key_components(key: Seq<char>) -> Seq<Seq<char>> {
    key_pieces(key).map_values(|r: (int, int)| piece(key, r))
}

/// Components joined by single separators.
pub open spec fn join_components(cs: Seq<Seq<char>>) -> Seq<char>
    decreases cs.len(),
{
    if cs.len() == 0 {
        Seq::empty()
    } else if cs.len() == 1 {
        cs[0]
    } else {
        join_components(cs.drop_last()) + seq!['/'] + cs.last()
    }
}

/// `key` as a relative path with `.` and `..` resolved lexically, empty
/// components dropped, and no separator at either end.
pub open spec fn normalized_key(key: Seq<char>) -> Seq<char> {
    join_components(key_components(key))
}

/// The file that `key` names in a store rooted at `base`.
pub open spec fn resolved_path(base: Seq<char>, key: Seq<char>) -> Seq<char> {
    root_prefix(base) + normalized_key(key)
}

/// Positions as integers.
pub open spec fn as_ints(rs: Seq<(usize, usize)>) -> Seq<(int, int)> {
    rs.map_values(|r: (usize, usize)| (r.0 as int, r.1 as int))
}

/// Reads one component of `key`, kept components as positions.
fn settle_piece(key: &Vec<char>, kept: &mut Vec<(usize, usize)>, s: usize, e: usize)
    requires
        s <= e <= key@.len(),
    ensures
        as_ints(final(kept)@) == settle(key@, as_ints(old(kept)@), (s as int, e as int)),
{
    let ghost c = piece(key@, (s as int, e as int));
    let ghost before = as_ints(kept@);
    if e - s == 0 {
        assert(c.len() == 0);
        return;
    }
    if e - s == 1 && key[s] == '.' {
        assert(c =~= seq!['.']);
        return;
    }
    if e - s == 2 && key[s] == '.' && key[s + 1] == '.' {
        assert(c =~= seq!['.', '.']);
        if kept.len() > 0 {
            let _ = kept.pop();
            assert(as_ints(kept@) =~= before.drop_last());
        }
        return;
    }
    assert(c != seq!['.']) by {
        if c == seq!['.'] {
            assert(c.len() == 1);
            assert(c[0] == key@[s as int]);
            assert(seq!['.'][0] == '.');
        }
    }
    assert(c != seq!['.', '.']) by {
        if c == seq!['.', '.'] {
            assert(c.len() == 2);
            assert(c[0] == key@[s as int]);
            assert(c[1] == key@[s + 1]);
            assert(seq!['.', '.'][0] == '.');
            assert(seq!['.', '.'][1] == '.');
        }
    }
    kept.push((s, e));
    assert(as_ints(kept@) =~= before.push((s as int, e as int)));
}

/// The positions of the components that remain of `key`.
fn pieces_of(key: &Vec<char>) -> (kept: Vec<(usize, usize)>)
    ensures
        as_ints(kept@) == key_pieces(key@),
{
    let n = key.len();
    let mut kept: Vec<(usize, usize)> = Vec::new();
    let mut start: usize = 0;
    let mut i: usize = 0;
    assert(as_ints(kept@) =~= Seq::<(int, int)>::empty());
    while i < n
        invariant
            n == key@.len(),
            i <= n,
            start <= i,
            as_ints(kept@) == scan(key@, i as int).0,
            start == scan(key@, i as int).1,
        decreases n - i,
    {
        if key[i] == '/' {
            settle_piece(key, &mut kept, start, i);
            start = i + 1;
        }
        i = i + 1;
    }
    settle_piece(key, &mut kept, start, n);
    kept
}


/// Whether every kept position lies within `key` and marks a name.
pub open spec fn pieces_are_names(key: Seq<char>, kept: Seq<(int, int)>) -> bool {
    forall|k: int|
        0 <= k < kept.len() ==> {
            &&& 0 <= (#[trigger] kept[k]).0 <= kept[k].1 <= key.len()
            &&& is_name(piece(key, kept[k]))
        }
}

/// Reading a separator-free component keeps only names.
proof fn lemma_settle_keeps_names(key: Seq<char>, kept: Seq<(int, int)>, r: (int, int))
    requires
        pieces_are_names(key, kept),
        0 <= r.0 <= r.1 <= key.len(),
        forall|j: int| r.0 <= j < r.1 ==> key[j] != '/',
    ensures
        pieces_are_names(key, settle(key, kept, r)),
{
    let c = piece(key, r);
    let out = settle(key, kept, r);
    if c.len() == 0 || c == seq!['.'] {
    } else if c == seq!['.', '.'] {
        if kept.len() > 0 {
            assert forall|k: int| 0 <= k < out.len() implies {
                &&& 0 <= (#[trigger] out[k]).0 <= out[k].1 <= key.len()
                &&& is_name(piece(key, out[k]))
            } by {
                assert(out[k] == kept[k]);
            }
        }
    } else {
        assert forall|k: int| 0 <= k < out.len() implies {
            &&& 0 <= (#[trigger] out[k]).0 <= out[k].1 <= key.len()
            &&& is_name(piece(key, out[k]))
        } by {
            if k < kept.len() {
                assert(out[k] == kept[k]);
            } else {
                assert(out[k] == r);
                assert forall|j: int| 0 <= j < c.len() implies c[j] != '/' by {
                    assert(c[j] == key[r.0 + j]);
                }
            }
        }
    }
}

/// What reading the first `i` characters of `key` leaves: names only, and a
/// current component free of separators.
proof fn lemma_scan_keeps_names(key: Seq<char>, i: int)
    requires
        0 <= i <= key.len(),
    ensures
        0 <= scan(key, i).1 <= i,
        forall|j: int| scan(key, i).1 <= j < i ==> key[j] != '/',
        pieces_are_names(key, scan(key, i).0),
    decreases i,
{
    if i > 0 {
        lemma_scan_keeps_names(key, i - 1);
        let p = scan(key, i - 1);
        if key[i - 1] == '/' {
            lemma_settle_keeps_names(key, p.0, (p.1, i - 1));
        }
    }
}

/// Every component that remains of a key is a name.
pub proof fn lemma_components_are_names(key: Seq<char>)
    ensures
        pieces_are_names(key, key_pieces(key)),
        forall|k: int|
            0 <= k < key_components(key).len() ==> is_name(#[trigger] key_components(key)[k]),
{
    lemma_scan_keeps_names(key, key.len() as int);
    let p = scan(key, key.len() as int);
    lemma_settle_keeps_names(key, p.0, (p.1, key.len() as int));
    let kp = key_pieces(key);
    assert forall|k: int| 0 <= k < key_components(key).len() implies is_name(
        #[trigger] key_components(key)[k],
    ) by {
        assert(key_components(key)[k] == piece(key, kp[k]));
    }
}

/// Names joined by separators form a relative path that never steps up to
/// a parent directory.
pub proof fn lemma_joined_names_stay(cs: Seq<Seq<char>>)
    requires
        forall|k: int| 0 <= k < cs.len() ==> is_name(#[trigger] cs[k]),
    ensures
        stays_in_store(join_components(cs)),
    decreases cs.len(),
{
    let p = join_components(cs);
    if cs.len() == 1 {
        let c = cs[0];
        assert(is_name(c));
        if p.len() > 0 {
            assert(p[0] != '/');
        }
        assert forall|i: int| !parent_step_at(p, i) by {
            if parent_step_at(p, i) {
                if i > 0 {
                    assert(p[i - 1] != '/');
                }
                if i + 2 < p.len() {
                    assert(p[i + 2] != '/');
                }
                assert(c =~= seq!['.', '.']);
            }
        }
    } else if cs.len() > 1 {
        let head = join_components(cs.drop_last());
        let c = cs.last();
        assert forall|k: int| 0 <= k < cs.drop_last().len() implies is_name(
            #[trigger] cs.drop_last()[k],
        ) by {
            assert(cs.drop_last()[k] == cs[k]);
        }
        lemma_joined_names_stay(cs.drop_last());
        assert(is_name(c));
        let m = head.len() as int;
        assert(p =~= head + seq!['/'] + c);
        assert(p[m] == '/');
        if head.len() > 0 {
            assert(p[0] == head[0]);
        } else {
            assert(p[0] == '/');
            assert(false) by {
                lemma_nonempty_join(cs.drop_last());
            }
        }
        assert forall|i: int| !parent_step_at(p, i) by {
            if parent_step_at(p, i) {
                if i + 2 <= m {
                    assert(head[i] == p[i]);
                    assert(head[i + 1] == p[i + 1]);
                    if i > 0 {
                        assert(head[i - 1] == p[i - 1]);
                    }
                    if i + 2 < m {
                        assert(head[i + 2] == p[i + 2]);
                    }
                    assert(parent_step_at(head, i));
                } else if i + 1 == m || i == m {
                    assert(p[m] == '/');
                } else {
                    let j = i - m - 1;
                    assert(p[i] == c[j]);
                    assert(p[i + 1] == c[j + 1]);
                    if j > 0 {
                        assert(p[i - 1] == c[j - 1]);
                    }
                    if i + 2 < p.len() {
                        assert(p[i + 2] == c[j + 2]);
                    }
                    assert(j == 0);
                    assert(c.len() == 2);
                    assert(c =~= seq!['.', '.']);
                }
            }
        }
    }
}

/// Names joined by separators are not empty when there is at least one.
proof fn lemma_nonempty_join(cs: Seq<Seq<char>>)
    requires
        cs.len() > 0,
        forall|k: int| 0 <= k < cs.len() ==> is_name(#[trigger] cs[k]),
    ensures
        join_components(cs).len() > 0,
{
    if cs.len() == 1 {
        assert(is_name(cs[0]));
    }
}

/// Reading a stretch without separators changes nothing.
proof fn lemma_scan_without_separators(key: Seq<char>, a: int, b: int)
    requires
        0 <= a <= b <= key.len(),
        forall|j: int| a <= j < b ==> key[j] != '/',
    ensures
        scan(key, b) == scan(key, a),
    decreases b - a,
{
    if b > a {
        lemma_scan_without_separators(key, a, b - 1);
    }
}

/// Reading the first `i` characters depends on those characters alone.
proof fn lemma_scan_prefix(k1: Seq<char>, k2: Seq<char>, i: int)
    requires
        0 <= i <= k1.len(),
        i <= k2.len(),
        forall|j: int| 0 <= j < i ==> k1[j] == k2[j],
    ensures
        scan(k1, i) == scan(k2, i),
    decreases i,
{
    if i > 0 {
        lemma_scan_prefix(k1, k2, i - 1);
        lemma_scan_keeps_names(k1, i - 1);
        let p = scan(k1, i - 1);
        assert(piece(k1, (p.1, i - 1)) =~= piece(k2, (p.1, i - 1)));
    }
}

/// Names joined by single separators come back as those very names.
#[verifier::spinoff_prover]
#[verifier::rlimit(40)]
pub proof fn lemma_components_of_joined_names(cs: Seq<Seq<char>>)
    requires
        forall|k: int| 0 <= k < cs.len() ==> is_name(#[trigger] cs[k]),
    ensures
        key_components(join_components(cs)) == cs,
    decreases cs.len(),
{
    let key = join_components(cs);
    if cs.len() == 0 {
        assert(key_components(key) =~= cs);
    } else if cs.len() == 1 {
        let c = cs[0];
        assert(is_name(c));
        lemma_scan_without_separators(key, 0, key.len() as int);
        assert(piece(key, (0, key.len() as int)) =~= c);
        assert(key_pieces(key) =~= seq![(0int, key.len() as int)]);
        assert(key_components(key) =~= cs);
    } else {
        let head = join_components(cs.drop_last());
        let c = cs.last();
        assert(is_name(c));
        assert forall|k: int| 0 <= k < cs.drop_last().len() implies is_name(
            #[trigger] cs.drop_last()[k],
        ) by {
            assert(cs.drop_last()[k] == cs[k]);
        }
        lemma_components_of_joined_names(cs.drop_last());
        let m = head.len() as int;
        let n = key.len() as int;
        assert(key =~= head + seq!['/'] + c);
        lemma_scan_prefix(key, head, m);
        lemma_scan_keeps_names(head, m);
        let ph = scan(head, m);
        assert(piece(key, (ph.1, m)) =~= piece(head, (ph.1, m)));
        assert(scan(key, m + 1) == (key_pieces(head), m + 1));
        assert forall|j: int| m + 1 <= j < n implies key[j] != '/' by {
            assert(key[j] == c[j - m - 1]);
        }
        lemma_scan_without_separators(key, m + 1, n);
        assert(piece(key, (m + 1, n)) =~= c);
        assert(key_pieces(key) == key_pieces(head).push((m + 1, n)));
        lemma_components_are_names(head);
        let kh = key_pieces(head);
        assert forall|k: int| 0 <= k < cs.len() implies #[trigger] key_components(key)[k] == cs[k] by {
            if k < cs.len() - 1 {
                assert(key_pieces(key)[k] == kh[k]);
                assert(0 <= kh[k].0 <= kh[k].1 <= m);
                assert(piece(key, kh[k]) =~= piece(head, kh[k]));
                assert(key_components(head)[k] == piece(head, kh[k]));
                assert(cs.drop_last()[k] == cs[k]);
            }
        }
        assert(key_components(key) =~= cs);
    }
}

/// A key made of names separated by single separators resolves exactly as
/// joining it onto the root would: nothing in it is changed.
pub proof fn lemma_plain_key_resolves_unchanged(base: Seq<char>, cs: Seq<Seq<char>>)
    requires
        forall|k: int| 0 <= k < cs.len() ==> is_name(#[trigger] cs[k]),
    ensures
        normalized_key(join_components(cs)) == join_components(cs),
        resolved_path(base, join_components(cs)) == root_prefix(base) + join_components(cs),
{
    lemma_components_of_joined_names(cs);
}

/// Every key resolves below the root: the path is the root, a separator
/// where one is needed, and then the key as a relative path that never
/// steps up to a parent directory.
pub proof fn lemma_resolved_path_stays_below_root(base: Seq<char>, key: Seq<char>)
    ensures
        base.is_prefix_of(root_prefix(base)),
        root_prefix(base).is_prefix_of(resolved_path(base, key)),
        normalized_key(key).is_suffix_of(resolved_path(base, key)),
        stays_in_store(normalized_key(key)),
{
    lemma_components_are_names(key);
    lemma_joined_names_stay(key_components(key));
    let r = root_prefix(base);
    let p = resolved_path(base, key);
    let nk = normalized_key(key);
    assert(r.subrange(0, base.len() as int) =~= base);
    assert(p.subrange(0, r.len() as int) =~= r);
    assert(p.subrange(p.len() - nk.len(), p.len() as int) =~= nk);
}

/// Keys that differ once resolved name different files: artifacts stored
/// under them never share a file.
pub proof fn lemma_distinct_keys_distinct_files(base: Seq<char>, k1: Seq<char>, k2: Seq<char>)
    requires
        normalized_key(k1) != normalized_key(k2),
    ensures
        resolved_path(base, k1) != resolved_path(base, k2),
{
    let head = root_prefix(base);
    let p1 = resolved_path(base, k1);
    let p2 = resolved_path(base, k2);
    if p1 == p2 {
        assert(normalized_key(k1) =~= p1.subrange(head.len() as int, p1.len() as int));
        assert(normalized_key(k2) =~= p2.subrange(head.len() as int, p2.len() as int));
    }
}

/// The path of the file that `key` names in a store rooted at `base`.
pub fn resolve_below(base: &str, key: &str) -> (path: String)
    ensures
        path@ == resolved_path(base@, key@),
{
    let path = join_leading(base, key, false);
    proof {
        assert(key_components(key@).take(key_components(key@).len() as int) =~= key_components(
            key@,
        ));
    }
    path
}

/// The directory of the file that `key` names in a store rooted at `base`:
/// the root followed by every component of the key but the last.
pub open spec fn directory_of(base: Seq<char>, key: Seq<char>) -> Seq<char> {
    let cs = key_components(key);
    if cs.len() > 0 {
        root_prefix(base) + join_components(cs.drop_last())
    } else {
        root_prefix(base)
    }
}

/// The directory of the file that `key` names in a store rooted at `base`.
pub fn directory_below(base: &str, key: &str) -> (dir: String)
    ensures
        dir@ == directory_of(base@, key@),
{
    let dir = join_leading(base, key, true);
    proof {
        let cs = key_components(key@);
        if cs.len() > 0 {
            assert(cs.take(cs.len() - 1) =~= cs.drop_last());
        } else {
            assert(cs.take(0) =~= Seq::<Seq<char>>::empty());
        }
    }
    dir
}

/// A file lies in its directory, and the directory lies below the root.
pub proof fn lemma_file_lies_in_its_directory(base: Seq<char>, key: Seq<char>)
    ensures
        root_prefix(base).is_prefix_of(directory_of(base, key)),
        directory_of(base, key).is_prefix_of(resolved_path(base, key)),
{
    let cs = key_components(key);
    let r = root_prefix(base);
    let d = directory_of(base, key);
    let p = resolved_path(base, key);
    assert(d.subrange(0, r.len() as int) =~= r);
    if cs.len() >= 2 {
        assert(join_components(cs) =~= join_components(cs.drop_last()) + seq!['/'] + cs.last());
        assert(p.subrange(0, d.len() as int) =~= d);
    } else if cs.len() == 1 {
        assert(cs.drop_last() =~= Seq::<Seq<char>>::empty());
        assert(p.subrange(0, d.len() as int) =~= d);
    } else {
        assert(p.subrange(0, d.len() as int) =~= d);
    }
}

/// Joined names end with the last character of the last name.
proof fn lemma_join_ends_with_last_name(cs: Seq<Seq<char>>)
    requires
        cs.len() > 0,
        forall|k: int| 0 <= k < cs.len() ==> is_name(#[trigger] cs[k]),
    ensures
        join_components(cs).len() > 0,
        join_components(cs).last() == cs.last().last(),
{
    assert(is_name(cs.last()));
    if cs.len() > 1 {
        let j = join_components(cs);
        assert(j =~= join_components(cs.drop_last()) + seq!['/'] + cs.last());
    }
}

/// The directory a write creates is the parent of the file it writes: the
/// file's path is that directory, a separator unless the directory is empty
/// or already ends in one, and then the key's last component, which is a
/// name. A key without components names the root directory itself.
pub proof fn lemma_directory_is_parent(base: Seq<char>, key: Seq<char>)
    ensures
        ({
            let cs = key_components(key);
            let dir = directory_of(base, key);
            let sep = if dir.len() == 0 || dir.last() == '/' {
                Seq::<char>::empty()
            } else {
                seq!['/']
            };
            &&& cs.len() == 0 ==> dir == resolved_path(base, key) && dir == root_prefix(base)
            &&& cs.len() > 0 ==> resolved_path(base, key) == dir + sep + cs.last()
            &&& cs.len() > 0 ==> is_name(cs.last())
        }),
{
    let cs = key_components(key);
    let dir = directory_of(base, key);
    lemma_components_are_names(key);
    if cs.len() == 0 {
        assert(join_components(cs) =~= Seq::<char>::empty());
        assert(resolved_path(base, key) =~= root_prefix(base));
    } else if cs.len() == 1 {
        assert(cs.drop_last() =~= Seq::<Seq<char>>::empty());
        assert(dir =~= root_prefix(base));
        assert(resolved_path(base, key) =~= dir + Seq::<char>::empty() + cs.last());
    } else {
        let front = cs.drop_last();
        assert forall|k: int| 0 <= k < front.len() implies is_name(#[trigger] front[k]) by {
            assert(front[k] == cs[k]);
        }
        lemma_join_ends_with_last_name(front);
        assert(is_name(front.last()));
        assert(dir.last() == join_components(front).last());
        assert(dir.last() != '/');
        assert(resolved_path(base, key) =~= dir + seq!['/'] + cs.last());
    }
}

/// The root prefix followed by the components of `key`, all of them or all
/// but the last.
fn join_leading(base: &str, key: &str, all_but_last: bool) -> (path: String)
    ensures
        ({
            let cs = key_components(key@);
            let count = if all_but_last && cs.len() > 0 { cs.len() - 1 } else { cs.len() as int };
            path@ == root_prefix(base@) + join_components(cs.take(count))
        }),
{
    let cs = chars_of(key);
    let kept = pieces_of(&cs);
    let count = if all_but_last && kept.len() > 0 { kept.len() - 1 } else { kept.len() };
    proof {
        lemma_components_are_names(key@);
    }
    let ghost comps = key_components(key@);
    let ghost kp = key_pieces(key@);
    let mut path = String::from_str(base);
    match last_char(base) {
        Some(c) => {
            if c != '/' {
                path.append("/");
                proof {
                    reveal_strlit("/");
                }
            }
        },
        None => {},
    }
    let ghost root = path@;
    assert(root == root_prefix(base@));
    let mut k: usize = 0;
    assert(comps.take(0) =~= Seq::<Seq<char>>::empty());
    while k < count
        invariant
            count <= kept@.len(),
            cs@ == key@,
            as_ints(kept@) == kp,
            kp == key_pieces(key@),
            comps == key_components(key@),
            comps.len() == kp.len(),
            pieces_are_names(key@, kp),
            k <= kept@.len(),
            k <= count,
            path@ == root + join_components(comps.take(k as int)),
        decreases count - k,
    {
        let (s, e) = kept[k];
        assert(kp[k as int] == (s as int, e as int));
        if k > 0 {
            path.append("/");
            proof {
                reveal_strlit("/");
            }
        }
        let part = key.substring_char(s, e);
        path.append(part);
        proof {
            let t = comps.take(k + 1);
            assert(t.last() == comps[k as int]);
            assert(comps[k as int] == piece(key@, kp[k as int]));
            if k > 0 {
                assert(t.drop_last() =~= comps.take(k as int));
            } else {
                assert(join_components(comps.take(0)) =~= Seq::<char>::empty());
            }
        }
        k = k + 1;
    }
    path
}

} // verus!
