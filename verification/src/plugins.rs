//! Which files of the plugin directory are plugins: those whose extension,
//! as `Path::extension` finds it, is `dll` in any ASCII case.
use vstd::prelude::*;

verus! {

/// The byte `.`.
pub const DOT: u8 = 0x2E;

/// The position of the last `b` in `s`, or -1.
pub open spec fn last_index_of(s: Seq<u8>, b: u8) -> int
    decreases s.len(),
{
    if s.len() == 0 {
        -1
    } else if s.last() == b {
        s.len() - 1
    } else {
        last_index_of(s.drop_last(), b)
    }
}

/// The extension of a file name as `Path::extension` finds it: the bytes
/// after the last `.`, unless the name is `..` or the only `.` opens it.
pub open spec fn path_extension(name: Seq<u8>) -> Option<Seq<u8>> {
    if name == seq![DOT, DOT] {
        None
    } else if last_index_of(name, DOT) <= 0 {
        None
    } else {
        Some(name.skip(last_index_of(name, DOT) + 1))
    }
}

/// A byte with ASCII upper-case letters mapped to lower case.
pub open spec fn ascii_lower(b: u8) -> u8 {
    if 0x41 <= b <= 0x5A {
        (b + 0x20) as u8
    } else {
        b
    }
}

/// Equality up to ASCII case, as `eq_ignore_ascii_case` decides it.
pub open spec fn eq_ignore_ascii_case(a: Seq<u8>, b: Seq<u8>) -> bool {
    &&& a.len() == b.len()
    &&& forall|i: int| 0 <= i < a.len() ==> #[trigger] ascii_lower(a[i]) == ascii_lower(b[i])
}

/// The extension that marks a plugin.
pub open spec fn dll() -> Seq<u8> {
    seq![0x64u8, 0x6Cu8, 0x6Cu8]
}

/// True when the file called `name` is a plugin.
pub open spec fn is_plugin_name(name: Seq<u8>) -> bool {
    path_extension(name) matches Some(ext) && eq_ignore_ascii_case(ext, dll())
}

/// The position of the last `b` in `s`, or `None`.
fn find_last(s: &[u8], b: u8) -> (at: Option<usize>)
    ensures
        match at {
            Some(i) => i as int == last_index_of(s@, b),
            None => last_index_of(s@, b) == -1,
        },
{
    let mut i: usize = s.len();
    assert(s@.take(i as int) =~= s@);
    while i > 0
        invariant
            i <= s@.len(),
            last_index_of(s@, b) == last_index_of(s@.take(i as int), b),
        decreases i,
    {
        let t = Ghost(s@.take(i as int));
        if s[i - 1] == b {
            assert(t@.last() == b);
            return Some(i - 1);
        }
        assert(t@.drop_last() =~= s@.take(i - 1));
        i = i - 1;
    }
    None
}

/// Tells whether the file called `name` (its bytes) is a plugin.
pub fn has_dll_extension(name: &[u8]) -> (plugin: bool)
    ensures
        plugin == is_plugin_name(name@),
{
    let n = name.len();
    if n == 2 && name[0] == DOT && name[1] == DOT {
        assert(name@ =~= seq![DOT, DOT]);
        return false;
    }
    assert(name@ != seq![DOT, DOT]);
    proof {
        lemma_last_index_of(name@, DOT);
    }
    match find_last(name, DOT) {
        None => false,
        Some(0) => false,
        Some(dot) => {
            let ext = &name[dot + 1..n];
            assert(ext@ =~= name@.skip(dot + 1));
            assert(path_extension(name@) == Some(ext@));
            if ext.len() != 3 {
                return false;
            }
            let mut i: usize = 0;
            while i < 3
                invariant
                    ext@.len() == 3,
                    path_extension(name@) == Some(ext@),
                    i <= 3,
                    forall|k: int| 0 <= k < i ==> #[trigger] ascii_lower(ext@[k]) == ascii_lower(
                        dll()[k],
                    ),
                decreases 3 - i,
            {
                let c = ext[i];
                let lower = if 0x41 <= c && c <= 0x5A {
                    c + 0x20
                } else {
                    c
                };
                let want: u8 = if i == 0 {
                    0x64
                } else {
                    0x6C
                };
                assert(want == dll()[i as int]);
                assert(ascii_lower(want) == want);
                if lower != want {
                    assert(ascii_lower(ext@[i as int]) != ascii_lower(dll()[i as int]));
                    return false;
                }
                i = i + 1;
            }
            true
        },
    }
}

/// The positions, in order, of the names in `names` that are plugins.
pub fn plugin_indices(names: &Vec<Vec<u8>>) -> (picked: Vec<usize>)
    ensures
        forall|k: int|
            0 <= k < picked@.len() ==> #[trigger] picked@[k] < names@.len() && is_plugin_name(
                names@[picked@[k] as int]@,
            ),
        forall|k: int, l: int| 0 <= k < l < picked@.len() ==> picked@[k] < picked@[l],
        forall|i: int|
            0 <= i < names@.len() && is_plugin_name(#[trigger] names@[i]@) ==> exists|k: int|
                0 <= k < picked@.len() && picked@[k] == i,
{
    let mut picked: Vec<usize> = Vec::new();
    let mut i: usize = 0;
    while i < names.len()
        invariant
            i <= names@.len(),
            forall|k: int|
                0 <= k < picked@.len() ==> #[trigger] picked@[k] < i && is_plugin_name(
                    names@[picked@[k] as int]@,
                ),
            forall|k: int, l: int| 0 <= k < l < picked@.len() ==> picked@[k] < picked@[l],
            forall|j: int|
                0 <= j < i && is_plugin_name(#[trigger] names@[j]@) ==> exists|k: int|
                    0 <= k < picked@.len() && picked@[k] == j,
        decreases names@.len() - i,
    {
        if has_dll_extension(names[i].as_slice()) {
            let ghost before = picked@;
            picked.push(i);
            assert forall|j: int|
                0 <= j < i + 1 && is_plugin_name(#[trigger] names@[j]@) implies exists|k: int|
                0 <= k < picked@.len() && picked@[k] == j by {
                if j < i {
                    let k = choose|k: int| 0 <= k < before.len() && before[k] == j;
                    assert(picked@[k] == j);
                } else {
                    assert(picked@[before.len() as int] == j);
                }
            }
        }
        i = i + 1;
    }
    picked
}

/// A file is a plugin exactly when its name is longer than four bytes and
/// ends in `.dll`, in any ASCII case.
pub proof fn lemma_plugin_name_is_dll_suffix(name: Seq<u8>)
    ensures
        is_plugin_name(name) <==> (name.len() >= 5 && name[name.len() - 4] == DOT
            && eq_ignore_ascii_case(name.skip(name.len() - 3), dll())),
{
    let n = name.len() as int;
    let d = last_index_of(name, DOT);
    lemma_last_index_of(name, DOT);
    if is_plugin_name(name) {
        let ext = name.skip(d + 1);
        assert(ext.len() == 3);
        assert(d == n - 4);
        assert(ext =~= name.skip(n - 3));
    }
    if n >= 5 && name[n - 4] == DOT && eq_ignore_ascii_case(name.skip(n - 3), dll()) {
        let tail = name.skip(n - 3);
        assert forall|i: int| n - 3 <= i < n implies name[i] != DOT by {
            assert(ascii_lower(tail[i - (n - 3)]) == ascii_lower(dll()[i - (n - 3)]));
        }
        lemma_last_index_is(name, DOT, n - 4);
        assert(name != seq![DOT, DOT]);
    }
}

/// What `last_index_of` is.
proof fn lemma_last_index_of(s: Seq<u8>, b: u8)
    ensures
        -1 <= last_index_of(s, b) < s.len(),
        last_index_of(s, b) >= 0 ==> s[last_index_of(s, b)] == b,
        forall|i: int| last_index_of(s, b) < i < s.len() ==> s[i] != b,
    decreases s.len(),
{
    if s.len() > 0 && s.last() != b {
        let p = s.drop_last();
        lemma_last_index_of(p, b);
        assert forall|i: int| last_index_of(s, b) < i < s.len() implies s[i] != b by {
            if i < p.len() {
                assert(p[i] == s[i]);
            }
        }
    }
}

/// The last `b` is at `at` when `s[at]` is `b` and no later byte is.
proof fn lemma_last_index_is(s: Seq<u8>, b: u8, at: int)
    requires
        0 <= at < s.len(),
        s[at] == b,
        forall|i: int| at < i < s.len() ==> s[i] != b,
    ensures
        last_index_of(s, b) == at,
    decreases s.len(),
{
    if s.len() - 1 > at {
        lemma_last_index_is(s.drop_last(), b, at);
    }
}

/// A file is a plugin exactly when its name has at least one byte before
/// a final `.` followed by `d` or `D`, `l` or `L`, `l` or `L`.
pub proof fn lemma_plugin_name_bytes(name: Seq<u8>)
    ensures
        is_plugin_name(name) <==> {
            let n = name.len() as int;
            &&& n >= 5
            &&& name[n - 4] == 0x2E
            &&& (name[n - 3] == 0x64 || name[n - 3] == 0x44)
            &&& (name[n - 2] == 0x6C || name[n - 2] == 0x4C)
            &&& (name[n - 1] == 0x6C || name[n - 1] == 0x4C)
        },
{
    lemma_plugin_name_is_dll_suffix(name);
    let n = name.len() as int;
    if n >= 5 {
        let t = name.skip(n - 3);
        assert(t[0] == name[n - 3] && t[1] == name[n - 2] && t[2] == name[n - 1]);
        if eq_ignore_ascii_case(t, dll()) {
            assert(ascii_lower(t[0]) == ascii_lower(dll()[0]));
            assert(ascii_lower(t[1]) == ascii_lower(dll()[1]));
            assert(ascii_lower(t[2]) == ascii_lower(dll()[2]));
        }
        if (name[n - 3] == 0x64 || name[n - 3] == 0x44) && (name[n - 2] == 0x6C || name[n - 2]
            == 0x4C) && (name[n - 1] == 0x6C || name[n - 1] == 0x4C) {
            assert forall|i: int| 0 <= i < t.len() implies #[trigger] ascii_lower(t[i]) == ascii_lower(
                dll()[i],
            ) by {}
        }
    }
}

} // verus!

