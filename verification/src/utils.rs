use vstd::prelude::*;

use crate::text::{chars_of, str_eq, string_views};

verus! {

/// `path` with a leading `~` standing for the home directory `home`:
/// `~` alone is the home directory (or stays `~` when there is none),
/// `~/rest` is the home directory (or nothing) followed by `/rest`, and any
/// other path is unchanged.
pub open spec fn tilde_expansion(path: Seq<char>, home: Option<Seq<char>>) -> Seq<char> {
    if path == seq!['~'] {
        match home {
            Some(h) => h,
            None => path,
        }
    } else if path.len() >= 2 && path[0] == '~' && path[1] == '/' {
        match home {
            Some(h) => h + path.drop_first(),
            None => path.drop_first(),
        }
    } else {
        path
    }
}

/// Expand a leading `~` to the home directory `home`.
///
/// - `"~"`      → `home`
/// - `"~/foo"`  → `home/foo`
/// - anything else is returned unchanged.
pub fn expand_tilde(path: &str, home: Option<&str>) -> (r: String)
    ensures
        r@ == tilde_expansion(path@, match home {
            Some(h) => Some(h@),
            None => None,
        }),
{
    let cs = chars_of(path);
    proof {
        reveal_strlit("~");
        assert("~"@ =~= seq!['~']);
    }
    if str_eq(path, "~") {
        match home {
            Some(h) => str::to_owned(h),
            None => str::to_owned(path),
        }
    } else if cs.len() >= 2 && cs[0] == '~' && cs[1] == '/' {
        let mut r = match home {
            Some(h) => str::to_owned(h),
            None => String::new(),
        };
        let ghost start = r@;
        let mut i: usize = 1;
        while i < cs.len()
            invariant
                1 <= i <= cs@.len(),
                cs@ == path@,
                r@ == start + cs@.subrange(1, i as int),
            decreases cs@.len() - i,
        {
            crate::text::push_char(&mut r, cs[i]);
            i = i + 1;
            assert(r@ =~= start + cs@.subrange(1, i as int));
        }
        assert(cs@.subrange(1, cs@.len() as int) =~= path@.drop_first());
        r
    } else {
        str::to_owned(path)
    }
}

/// The names with each later repetition of a name left out, in order.
pub open spec fn first_occurrences(names: Seq<Seq<char>>) -> Seq<Seq<char>>
    decreases names.len(),
{
    if names.len() == 0 {
        Seq::empty()
    } else {
        let rest = first_occurrences(names.drop_last());
        if names.drop_last().contains(names.last()) {
            rest
        } else {
            rest.push(names.last())
        }
    }
}

/// The executables found on the search path, each name once, in the order
/// of its first appearance.
pub fn get_path_executables_deduped(executables: Vec<String>) -> (r: Vec<String>)
    ensures
        string_views(r@) == first_occurrences(string_views(executables@)),
{
    let ghost all = string_views(executables@);
    let mut seen: Vec<String> = Vec::new();
    let mut i: usize = 0;
    assert(all.take(0) =~= Seq::<Seq<char>>::empty());
    assert(string_views(seen@) =~= Seq::<Seq<char>>::empty());
    while i < executables.len()
        invariant
            i <= executables@.len(),
            all == string_views(executables@),
            string_views(seen@) == first_occurrences(all.take(i as int)),
            string_views(seen@).to_set() == all.take(i as int).to_set(),
        decreases executables@.len() - i,
    {
        let name = &executables[i];
        let ghost before = seen@;
        assert(all.take(i + 1).drop_last() =~= all.take(i as int));
        assert(all.take(i + 1).last() == name@);
        let mut found = false;
        let mut j: usize = 0;
        while j < seen.len()
            invariant
                j <= seen@.len(),
                seen@ == before,
                found == exists|k: int| 0 <= k < j && #[trigger] seen@[k]@ == name@,
            decreases seen@.len() - j,
        {
            if str_eq(seen[j].as_str(), name.as_str()) {
                found = true;
            }
            j = j + 1;
        }
        assert(found == string_views(before).contains(name@)) by {
            if found {
                let k = choose|k: int| 0 <= k < j && #[trigger] seen@[k]@ == name@;
                assert(string_views(before)[k] == name@);
            }
            if string_views(before).contains(name@) {
                let k = choose|k: int| 0 <= k < string_views(before).len() && string_views(before)[k] == name@;
                assert(seen@[k]@ == name@);
            }
        }
        assert(all.take(i as int).contains(name@) == string_views(before).contains(name@)) by {
            assert(all.take(i as int).to_set().contains(name@) == all.take(i as int).contains(name@));
            assert(string_views(before).to_set().contains(name@) == string_views(before).contains(name@));
        }
        if !found {
            let copy = name.clone();
            seen.push(copy);
            proof {
                crate::text::lemma_string_views_push(before, copy);
            }
        }
        assert(string_views(seen@).to_set() =~= all.take(i + 1).to_set()) by {
            let t1 = all.take(i + 1);
            let t0 = all.take(i as int);
            let sv = string_views(seen@);
            let sb = string_views(before);
            assert(t1 =~= t0.push(name@));
            assert forall|w: Seq<char>| sv.to_set().contains(w) implies t1.to_set().contains(w) by {
                let k = choose|k: int| 0 <= k < sv.len() && sv[k] == w;
                if k < sb.len() {
                    assert(sb[k] == w);
                    assert(sb.to_set().contains(w));
                    let m = choose|m: int| 0 <= m < t0.len() && t0[m] == w;
                    assert(t1[m] == w);
                } else {
                    assert(t1[i as int] == w);
                }
            }
            assert forall|w: Seq<char>| t1.to_set().contains(w) implies sv.to_set().contains(w) by {
                let m = choose|m: int| 0 <= m < t1.len() && t1[m] == w;
                if m < i {
                    assert(t0[m] == w);
                    assert(t0.to_set().contains(w));
                    let k = choose|k: int| 0 <= k < sb.len() && sb[k] == w;
                    assert(sv[k] == w);
                } else if found {
                    let k = choose|k: int| 0 <= k < sb.len() && sb[k] == w;
                    assert(sv[k] == w);
                } else {
                    assert(sv[sb.len() as int] == w);
                }
            }
        }
        i = i + 1;
    }
    assert(all.take(executables@.len() as int) =~= all);
    seen
}

/// Law: leaving out repetitions keeps every name, gives each name once,
/// and changes nothing more when done again.
pub proof fn lemma_first_occurrences(names: Seq<Seq<char>>)
    ensures
        first_occurrences(names).to_set() == names.to_set(),
        first_occurrences(names).no_duplicates(),
        first_occurrences(first_occurrences(names)) == first_occurrences(names),
    decreases names.len(),
{
    if names.len() > 0 {
        let init = names.drop_last();
        let x = names.last();
        lemma_first_occurrences(init);
        let r = first_occurrences(init);
        assert(names =~= init.push(x));
        assert(names.to_set() =~= init.to_set().insert(x)) by {
            assert forall|w: Seq<char>| names.to_set().contains(w) implies init.to_set().insert(x).contains(w) by {
                let k = choose|k: int| 0 <= k < names.len() && names[k] == w;
                if k < init.len() {
                    assert(init[k] == w);
                }
            }
            assert forall|w: Seq<char>| init.to_set().insert(x).contains(w) implies names.to_set().contains(w) by {
                if w == x {
                    assert(names[names.len() - 1] == w);
                } else {
                    let k = choose|k: int| 0 <= k < init.len() && init[k] == w;
                    assert(names[k] == w);
                }
            }
        }
        if init.contains(x) {
            assert(init.to_set().contains(x));
            assert(init.to_set().insert(x) =~= init.to_set());
        } else {
            let r2 = r.push(x);
            assert(r2.to_set() =~= r.to_set().insert(x)) by {
                assert forall|w: Seq<char>| r2.to_set().contains(w) implies r.to_set().insert(x).contains(w) by {
                    let k = choose|k: int| 0 <= k < r2.len() && r2[k] == w;
                    if k < r.len() {
                        assert(r[k] == w);
                    }
                }
                assert forall|w: Seq<char>| r.to_set().insert(x).contains(w) implies r2.to_set().contains(w) by {
                    if w == x {
                        assert(r2[r.len() as int] == w);
                    } else {
                        let k = choose|k: int| 0 <= k < r.len() && r[k] == w;
                        assert(r2[k] == w);
                    }
                }
            }
            assert(!r.contains(x)) by {
                if r.contains(x) {
                    assert(r.to_set().contains(x));
                    assert(init.to_set().contains(x));
                }
            }
            assert(r2.no_duplicates()) by {
                assert forall|a: int, b: int| 0 <= a < r2.len() && 0 <= b < r2.len() && a != b implies r2[a] != r2[b] by {
                    if a == r.len() {
                        assert(r2[b] == r[b]);
                    } else if b == r.len() {
                        assert(r2[a] == r[a]);
                    } else {
                        assert(r2[a] == r[a]);
                        assert(r2[b] == r[b]);
                    }
                }
            }
        }
    }
    lemma_first_occurrences_of_distinct(first_occurrences(names));
}

/// Leaving out repetitions of names that never repeat changes nothing.
proof fn lemma_first_occurrences_of_distinct(names: Seq<Seq<char>>)
    requires
        names.no_duplicates(),
    ensures
        first_occurrences(names) == names,
    decreases names.len(),
{
    if names.len() > 0 {
        let init = names.drop_last();
        assert(init.no_duplicates()) by {
            assert forall|a: int, b: int| 0 <= a < init.len() && 0 <= b < init.len() && a != b implies init[a] != init[b] by {
                assert(init[a] == names[a]);
                assert(init[b] == names[b]);
            }
        }
        lemma_first_occurrences_of_distinct(init);
        assert(!init.contains(names.last())) by {
            if init.contains(names.last()) {
                let k = choose|k: int| 0 <= k < init.len() && init[k] == names.last();
                assert(names[k] == names[names.len() - 1]);
            }
        }
        assert(init.push(names.last()) =~= names);
    }
}

} // verus!
