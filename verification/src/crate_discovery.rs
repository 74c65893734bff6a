//! Package-name handling: hyphen/underscore normalization, the canonical
//! form, fuzzy suggestion matching against the renderable set, and the
//! filter that turns a directory listing into the renderable set.

use vstd::prelude::*;

use crate::text::{chars_eq, chars_vec, string_from_chars};

verus! {

/// Hyphens replaced by underscores, character for character.
pub open spec fn normalize_name_spec(s: Seq<char>) -> Seq<char> {
    s.map_values(
        |c: char|
            if c == '-' {
                '_'
            } else {
                c
            },
    )
}

/// Underscores replaced by hyphens, character for character.
pub open spec fn hyphenate_name_spec(s: Seq<char>) -> Seq<char> {
    s.map_values(
        |c: char|
            if c == '_' {
                '-'
            } else {
                c
            },
    )
}

/// ASCII letters lowered, character for character; package names are
/// ASCII, so this is the case-insensitive form used for matching.
pub open spec fn lower_ascii_spec(s: Seq<char>) -> Seq<char> {
    s.map_values(
        |c: char|
            if 'A' <= c && c <= 'Z' {
                (((c as u8) + 32) as u8) as char
            } else {
                c
            },
    )
}

/// `needle` occurs contiguously inside `hay`.
pub open spec fn contains_seq(hay: Seq<char>, needle: Seq<char>) -> bool {
    exists|a: int|
        0 <= a && a + needle.len() <= hay.len() && #[trigger] hay.subrange(a, a + needle.len())
            == needle
}

/// Map the characters of a string.
fn map_string_chars(s: &str, hyphen_to_underscore: bool) -> (r: String)
    ensures
        hyphen_to_underscore ==> r@ == normalize_name_spec(s@),
        !hyphen_to_underscore ==> r@ == hyphenate_name_spec(s@),
{
    let cs = chars_vec(s);
    let n = cs.len();
    let mut out: Vec<char> = Vec::new();
    let ghost goal = if hyphen_to_underscore {
        normalize_name_spec(s@)
    } else {
        hyphenate_name_spec(s@)
    };
    let mut i: usize = 0;
    while i < n
        invariant
            i <= n,
            n == cs@.len(),
            cs@ == s@,
            goal == (if hyphen_to_underscore {
                normalize_name_spec(s@)
            } else {
                hyphenate_name_spec(s@)
            }),
            goal.len() == n,
            out@ == goal.subrange(0, i as int),
        decreases n - i,
    {
        let c = cs[i];
        let mapped: char = if hyphen_to_underscore {
            if c == '-' {
                '_'
            } else {
                c
            }
        } else {
            if c == '_' {
                '-'
            } else {
                c
            }
        };
        out.push(mapped);
        proof {
            assert(goal[i as int] == mapped);
            assert(out@ =~= goal.subrange(0, i + 1));
        }
        i = i + 1;
    }
    proof {
        assert(goal.subrange(0, n as int) == goal);
    }
    string_from_chars(&out)
}

/// Normalize a package name: hyphens become underscores, as the Rust
/// identifier form of the package has them.
pub fn normalize_crate_name(name: &str) -> (r: String)
    ensures
        r@ == normalize_name_spec(name@),
{
    map_string_chars(name, true)
}

/// The canonical form of a package name: its normalized form.
pub fn canonical_crate_name(name: &str) -> (r: String)
    ensures
        r@ == normalize_name_spec(name@),
{
    normalize_crate_name(name)
}

/// ASCII-lowercase the characters of a name.
fn lower_chars(cs: &Vec<char>) -> (r: Vec<char>)
    ensures
        r@ == lower_ascii_spec(cs@),
{
    let n = cs.len();
    let mut out: Vec<char> = Vec::new();
    let ghost goal = lower_ascii_spec(cs@);
    let mut i: usize = 0;
    while i < n
        invariant
            i <= n,
            n == cs@.len(),
            goal == lower_ascii_spec(cs@),
            goal.len() == n,
            out@ == goal.subrange(0, i as int),
        decreases n - i,
    {
        let c = cs[i];
        let mapped: char = if 'A' <= c && c <= 'Z' {
            (((c as u8) + 32) as u8) as char
        } else {
            c
        };
        out.push(mapped);
        proof {
            assert(goal[i as int] == mapped);
            assert(out@ =~= goal.subrange(0, i + 1));
        }
        i = i + 1;
    }
    proof {
        assert(goal.subrange(0, n as int) == goal);
    }
    out
}

/// Does `needle` occur contiguously inside `hay`?
fn chars_contain(hay: &Vec<char>, needle: &Vec<char>) -> (r: bool)
    ensures
        r == contains_seq(hay@, needle@),
{
    let n = hay.len();
    let m = needle.len();
    if m == 0 {
        proof {
            assert(hay@.subrange(0, 0 + needle@.len() as int) =~= needle@);
            assert(contains_seq(hay@, needle@));
        }
        return true;
    }
    if m > n {
        return false;
    }
    let mut a: usize = 0;
    while a <= n - m
        invariant
            a <= n - m + 1,
            1 <= m <= n,
            n == hay@.len() && m == needle@.len(),
            forall|x: int|
                0 <= x < a ==> #[trigger] hay@.subrange(x, x + needle@.len()) != needle@,
        decreases (n - m + 1) - a,
    {
        let mut i: usize = 0;
        let mut matched = true;
        while i < m
            invariant
                i <= m,
                a + m <= n,
                n == hay@.len() && m == needle@.len(),
                matched ==> forall|j: int| 0 <= j < i ==> hay@[a + j] == needle@[j],
                !matched ==> hay@.subrange(a as int, a + m) != needle@,
            decreases m - i,
        {
            if !(hay[a + i] == needle[i]) {
                proof {
                    assert(hay@.subrange(a as int, a + m)[i as int] != needle@[i as int]);
                }
                matched = false;
                i = m;
            } else {
                i = i + 1;
            }
        }
        if matched {
            proof {
                assert(hay@.subrange(a as int, a + m) =~= needle@);
            }
            return true;
        }
        a = a + 1;
    }
    proof {
        assert forall|x: int| !(0 <= x && x + needle@.len() <= hay@.len() && #[trigger] hay@.subrange(
            x,
            x + needle@.len(),
        ) == needle@) by {
            if 0 <= x <= n - m {
                assert(hay@.subrange(x, x + needle@.len()) != needle@);
            }
        }
    }
    false
}

/// A renderable name suggests itself for a query when, case-insensitively,
/// it equals the normalized or hyphenated form of the query, or either of
/// the lowered name and the lowered normalized query contains the other.
pub open spec fn name_matches(candidate: Seq<char>, query: Seq<char>) -> bool {
    let nq = lower_ascii_spec(normalize_name_spec(query));
    let hq = lower_ascii_spec(hyphenate_name_spec(normalize_name_spec(query)));
    let cl = lower_ascii_spec(candidate);
    cl == nq || cl == hq || contains_seq(cl, nq) || contains_seq(nq, cl)
}

/// The candidates that match the query, in candidate order.
pub open spec fn matches_model(available: Seq<String>, query: Seq<char>) -> Seq<String>
    decreases available.len(),
{
    if available.len() == 0 {
        Seq::empty()
    } else {
        let rest = matches_model(available.drop_first(), query);
        if name_matches(available[0]@, query) {
            seq![available[0]] + rest
        } else {
            rest
        }
    }
}

/// The renderable names that could be meant by the queried name, in
/// discovery order: hyphen/underscore-insensitive and case-insensitive
/// equality, and containment in either direction.
pub fn find_matching_crate_names(crate_name: &str, available_crates: &Vec<String>) -> (r: Vec<
    String,
>)
    ensures
        r@ == matches_model(available_crates@, crate_name@),
{
    let normalized = normalize_crate_name(crate_name);
    let with_hyphens = map_string_chars(normalized.as_str(), false);
    let nq = lower_chars(&chars_vec(normalized.as_str()));
    let hq = lower_chars(&chars_vec(with_hyphens.as_str()));
    let n = available_crates.len();
    let mut out: Vec<String> = Vec::new();
    let mut i: usize = 0;
    proof {
        assert(available_crates@.subrange(0, n as int) == available_crates@);
    }
    while i < n
        invariant
            i <= n,
            n == available_crates@.len(),
            nq@ == lower_ascii_spec(normalize_name_spec(crate_name@)),
            hq@ == lower_ascii_spec(hyphenate_name_spec(normalize_name_spec(crate_name@))),
            matches_model(available_crates@, crate_name@) == out@ + matches_model(
                available_crates@.subrange(i as int, n as int),
                crate_name@,
            ),
        decreases n - i,
    {
        let ghost rem = available_crates@.subrange(i as int, n as int);
        proof {
            assert(rem[0] == available_crates@[i as int]);
            assert(rem.drop_first() =~= available_crates@.subrange(i + 1, n as int));
        }
        let cl = lower_chars(&chars_vec(available_crates[i].as_str()));
        let hit = chars_eq(&cl, &nq) || chars_eq(&cl, &hq) || chars_contain(&cl, &nq)
            || chars_contain(&nq, &cl);
        proof {
            assert(hit == name_matches(available_crates@[i as int]@, crate_name@));
        }
        if hit {
            let ghost out_old = out@;
            out.push(available_crates[i].clone());
            proof {
                assert(out@ =~= out_old + seq![available_crates@[i as int]]);
                assert(out_old + matches_model(rem, crate_name@) =~= out@ + matches_model(
                    rem.drop_first(),
                    crate_name@,
                ));
            }
        }
        i = i + 1;
    }
    proof {
        assert(available_crates@.subrange(n as int, n as int) =~= Seq::<String>::empty());
    }
    out
}

/// One entry of the rendered-documentation area, as the directory walk
/// reports it.
#[derive(Debug, Clone)]
pub struct DirEntryInfo {
    /// Name of the entry.
    pub name: String,
    /// The entry is a directory.
    pub is_dir: bool,
    /// The directory holds an `index.html`.
    pub has_index: bool,
}

/// A directory entry belongs to the renderable set when it is a directory
/// holding an `index.html`.
pub open spec fn renderable_entry(e: DirEntryInfo) -> bool {
    e.is_dir && e.has_index
}

/// The renderable names a listing yields: the names of its renderable
/// entries, in discovery order, first occurrence kept; `taken` carries the
/// names already claimed.
pub open spec fn renderable_model_rec(entries: Seq<DirEntryInfo>, taken: Seq<Seq<char>>) -> Seq<
    String,
>
    decreases entries.len(),
{
    if entries.len() == 0 {
        Seq::empty()
    } else {
        let e = entries[0];
        if renderable_entry(e) && !taken.contains(e.name@) {
            seq![e.name] + renderable_model_rec(entries.drop_first(), taken.push(e.name@))
        } else {
            renderable_model_rec(entries.drop_first(), taken)
        }
    }
}

/// The set of locally renderable packages: the names of the directories
/// under the rendered-documentation area that hold an `index.html`, in
/// discovery order, without duplicates.
pub fn discover_available_crates(entries: &Vec<DirEntryInfo>) -> (r: Vec<String>)
    ensures
        r@ == renderable_model_rec(entries@, Seq::empty()),
        forall|t1: int, t2: int| 0 <= t1 < t2 < r@.len() ==> (#[trigger] r@[t1])@ != (
        #[trigger] r@[t2])@,
{
    let n = entries.len();
    let mut out: Vec<String> = Vec::new();
    let mut i: usize = 0;
    proof {
        assert(entries@.subrange(0, n as int) == entries@);
        assert(out@.map_values(|s: String| s@) =~= Seq::<Seq<char>>::empty());
        assert(out@ + renderable_model_rec(entries@, Seq::<Seq<char>>::empty())
            =~= renderable_model_rec(entries@, Seq::<Seq<char>>::empty()));
    }
    while i < n
        invariant
            i <= n,
            n == entries@.len(),
            renderable_model_rec(entries@, Seq::empty()) == out@ + renderable_model_rec(
                entries@.subrange(i as int, n as int),
                out@.map_values(|s: String| s@),
            ),
            forall|t1: int, t2: int| 0 <= t1 < t2 < out@.len() ==> (#[trigger] out@[t1])@ != (
            #[trigger] out@[t2])@,
        decreases n - i,
    {
        let ghost rem = entries@.subrange(i as int, n as int);
        let ghost taken = out@.map_values(|s: String| s@);
        proof {
            assert(rem[0] == entries@[i as int]);
            assert(rem.drop_first() =~= entries@.subrange(i + 1, n as int));
        }
        let e = &entries[i];
        if e.is_dir && e.has_index {
            let name_cs = chars_vec(e.name.as_str());
            let mut dup = false;
            let mut j: usize = 0;
            while j < out.len()
                invariant
                    j <= out@.len(),
                    name_cs@ == entries@[i as int].name@,
                    !dup ==> forall|t: int| 0 <= t < j ==> (#[trigger] out@[t])@ != name_cs@,
                    dup ==> exists|t: int| 0 <= t < out@.len() && (#[trigger] out@[t])@ == name_cs@,
                decreases out@.len() - j,
            {
                let oc = chars_vec(out[j].as_str());
                if chars_eq(&oc, &name_cs) {
                    dup = true;
                    proof {
                        assert(out@[j as int]@ == name_cs@);
                    }
                    j = out.len();
                } else {
                    j = j + 1;
                }
            }
            proof {
                if dup {
                    let t = choose|t: int|
                        0 <= t < out@.len() && (#[trigger] out@[t])@ == name_cs@;
                    assert(taken[t] == out@[t]@);
                    assert(taken.contains(entries@[i as int].name@));
                } else {
                    assert forall|t: int| 0 <= t < taken.len() implies taken[t]
                        != entries@[i as int].name@ by {
                        assert(taken[t] == out@[t]@);
                    }
                    assert(!taken.contains(entries@[i as int].name@));
                }
            }
            if !dup {
                let ghost out_old = out@;
                out.push(e.name.clone());
                proof {
                    assert(out@ =~= out_old.push(entries@[i as int].name));
                    assert(out@.map_values(|s: String| s@) =~= taken.push(
                        entries@[i as int].name@,
                    ));
                    assert(renderable_model_rec(rem, taken) == seq![entries@[i as int].name]
                        + renderable_model_rec(rem.drop_first(), taken.push(
                        entries@[i as int].name@,
                    )));
                    assert(out_old + renderable_model_rec(rem, taken) =~= out@
                        + renderable_model_rec(rem.drop_first(), out@.map_values(
                        |s: String| s@,
                    )));
                    assert forall|t1: int, t2: int| 0 <= t1 < t2 < out@.len() implies (
                    #[trigger] out@[t1])@ != (#[trigger] out@[t2])@ by {
                        if t2 == out@.len() - 1 {
                            assert(out@[t1] == out_old[t1]);
                            assert(taken[t1] == out_old[t1]@);
                        }
                    }
                }
            } else {
                proof {
                    assert(renderable_model_rec(rem, taken) == renderable_model_rec(
                        rem.drop_first(),
                        taken,
                    ));
                }
            }
        } else {
            proof {
                assert(renderable_model_rec(rem, taken) == renderable_model_rec(
                    rem.drop_first(),
                    taken,
                ));
            }
        }
        i = i + 1;
    }
    proof {
        assert(entries@.subrange(n as int, n as int) =~= Seq::<DirEntryInfo>::empty());
    }
    out
}

} // verus!
