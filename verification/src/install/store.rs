//! What is remembered between sessions: the set of tracked folders, each
//! once, in the order they were first tracked, in a file under the user's
//! configuration folder.
use vstd::prelude::*;

use crate::install::discover::{join, join_path, texts};

verus! {

/// `s` with every element after its first occurrence removed.
pub open spec fn dedup<A>(s: Seq<A>) -> Seq<A>
    decreases s.len(),
{
    if s.len() == 0 {
        s
    } else {
        let d = dedup(s.drop_last());
        if d.contains(s.last()) {
            d
        } else {
            d.push(s.last())
        }
    }
}

/// The folders kept from a list: no folder twice, and every folder of the
/// list kept.
pub proof fn lemma_dedup_is_a_set<A>(s: Seq<A>)
    ensures
        dedup(s).no_duplicates(),
        forall|x: A| dedup(s).contains(x) <==> s.contains(x),
    decreases s.len(),
{
    if s.len() > 0 {
        lemma_dedup_is_a_set(s.drop_last());
        let d = dedup(s.drop_last());
        let y = s.last();
        assert forall|x: A| s.contains(x) <==> (s.drop_last().contains(x) || x == y) by {
            if s.contains(x) && x != y {
                let i = choose|i: int| 0 <= i < s.len() && s[i] == x;
                assert(s.drop_last()[i] == x);
            }
            if s.drop_last().contains(x) {
                let i = choose|i: int| 0 <= i < s.drop_last().len() && s.drop_last()[i] == x;
                assert(s[i] == x);
            }
            if x == y {
                assert(s[s.len() - 1] == x);
            }
        }
        if !d.contains(y) {
            assert forall|x: A| d.push(y).contains(x) <==> (d.contains(x) || x == y) by {
                if d.push(y).contains(x) && x != y {
                    let i = choose|i: int| 0 <= i < d.push(y).len() && d.push(y)[i] == x;
                    assert(d[i] == x);
                }
                if d.contains(x) {
                    let i = choose|i: int| 0 <= i < d.len() && d[i] == x;
                    assert(d.push(y)[i] == x);
                }
                if x == y {
                    assert(d.push(y)[d.len() as int] == x);
                }
            }
            assert forall|i: int, j: int|
                0 <= i < d.push(y).len() && 0 <= j < d.push(y).len() && i != j implies d.push(
                y,
            )[i] != d.push(y)[j] by {
                if i < d.len() && j < d.len() {
                } else if i < d.len() {
                    assert(d.contains(d[i]));
                } else if j < d.len() {
                    assert(d.contains(d[j]));
                }
            }
        }
    }
}

/// Whether `v` holds `s`.
fn holds(v: &Vec<String>, s: &String) -> (b: bool)
    ensures
        b == texts(v@).contains(s@),
{
    let mut i: usize = 0;
    while i < v.len()
        invariant
            i <= v@.len(),
            forall|j: int| 0 <= j < i ==> v@[j]@ != s@,
        decreases v@.len() - i,
    {
        if v[i] == *s {
            proof {
                assert(texts(v@)[i as int] == s@);
            }
            return true;
        }
        i = i + 1;
    }
    proof {
        if texts(v@).contains(s@) {
            let j = choose|j: int| 0 <= j < texts(v@).len() && texts(v@)[j] == s@;
            assert(v@[j]@ == s@);
        }
    }
    false
}

/// The folders to remember: each once, in the order of first appearance.
pub fn unique_folders(folders: &Vec<String>) -> (out: Vec<String>)
    ensures
        texts(out@) == dedup(texts(folders@)),
{
    let mut out: Vec<String> = Vec::new();
    let mut i: usize = 0;
    proof {
        assert(texts(folders@.take(0)) =~= Seq::<Seq<char>>::empty());
        assert(texts(out@) =~= Seq::<Seq<char>>::empty());
    }
    while i < folders.len()
        invariant
            i <= folders@.len(),
            texts(out@) == dedup(texts(folders@.take(i as int))),
        decreases folders@.len() - i,
    {
        let f = &folders[i];
        let seen = holds(&out, f);
        let ghost before = out@;
        if !seen {
            out.push(f.clone());
        }
        proof {
            let t = texts(folders@.take(i + 1));
            assert(t.drop_last() =~= texts(folders@.take(i as int)));
            assert(t.last() == folders@[i as int]@);
            assert(texts(out@) =~= if seen {
                texts(before)
            } else {
                texts(before).push(folders@[i as int]@)
            });
        }
        i = i + 1;
    }
    proof {
        assert(folders@.take(folders@.len() as int) =~= folders@);
    }
    out
}

/// The file that holds the tracked folders, inside the user's configuration
/// folder: `<config>/lazyinstall/targets.json`.
pub fn store_file(config_dir: &str) -> (p: String)
    ensures
        p@ == join_path(join_path(config_dir@, "lazyinstall"@), "targets.json"@),
{
    let dir = join(config_dir, "lazyinstall");
    join(dir.as_str(), "targets.json")
}

} // verus!
