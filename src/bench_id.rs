//! Benchmark identifiers of the form `<group>/<name>/<params>`.
use vstd::prelude::*;

use crate::text::{chars_of, find_char, string_of, sub_chars};

verus! {

/// A parsed benchmark identifier.
pub struct BenchId {
    pub group_name: String,
    pub bench_name: String,
    pub params: String,
}

impl View for BenchId {
    type V = (Seq<char>, Seq<char>, Seq<char>);

    open spec fn view(&self) -> Self::V {
        (self.group_name@, self.bench_name@, self.params@)
    }
}

/// `i` and `j` are the positions of the only two slashes of `s`.
pub open spec fn id_slashes(s: Seq<char>, i: int, j: int) -> bool {
    &&& 0 <= i < j < s.len()
    &&& s[i] == '/'
    &&& s[j] == '/'
    &&& forall|k: int| 0 <= k < s.len() && k != i && k != j ==> s[k] != '/'
}

/// Every `_` of `s` turned back into `:`.
pub open spec fn restore_colons(s: Seq<char>) -> Seq<char> {
    s.map_values(|c: char| if c == '_' { ':' } else { c })
}

/// The identifier that `s` denotes: its three slash-separated segments, with the
/// colons of the middle one restored; `None` unless `s` has exactly three segments.
pub open spec fn id_of(s: Seq<char>) -> Option<(Seq<char>, Seq<char>, Seq<char>)> {
    if exists|p: (int, int)| id_slashes(s, p.0, p.1) {
        let p = choose|p: (int, int)| id_slashes(s, p.0, p.1);
        Some(
            (
                s.subrange(0, p.0),
                restore_colons(s.subrange(p.0 + 1, p.1)),
                s.subrange(p.1 + 1, s.len() as int),
            ),
        )
    } else {
        None
    }
}

proof fn lemma_slashes_unique(s: Seq<char>, i: int, j: int, i2: int, j2: int)
    requires
        id_slashes(s, i, j),
        id_slashes(s, i2, j2),
    ensures
        i == i2 && j == j2,
{
}

fn restore_colons_exec(cs: &Vec<char>) -> (r: Vec<char>)
    ensures
        r@ == restore_colons(cs@),
{
    let mut r: Vec<char> = Vec::new();
    let mut i: usize = 0;
    while i < cs.len()
        invariant
            i <= cs@.len(),
            r@ == restore_colons(cs@.subrange(0, i as int)),
        decreases cs@.len() - i,
    {
        let c = cs[i];
        r.push(if c == '_' { ':' } else { c });
        i = i + 1;
        assert(cs@.subrange(0, i as int) == cs@.subrange(0, i - 1).push(c));
    }
    assert(cs@.subrange(0, cs@.len() as int) == cs@);
    r
}

impl BenchId {
    /// Parses `<group>/<name>/<params>`; the producer wrote the colons of
    /// `<name>` as underscores, and they are restored here.
    pub fn parse(s: &str) -> (r: Option<BenchId>)
        ensures
            match r {
                Some(id) => id_of(s@) == Some(id@),
                None => id_of(s@) is None,
            },
    {
        let cs = chars_of(s);
        let n = cs.len();
        let i = find_char(&cs, 0, '/');
        if i == n {
            assert(id_of(s@) is None) by {
                if exists|p: (int, int)| id_slashes(s@, p.0, p.1) {
                    let p = choose|p: (int, int)| id_slashes(s@, p.0, p.1);
                    assert(cs@[p.0] == '/');
                }
            }
            return None;
        }
        let j = find_char(&cs, i + 1, '/');
        if j == n {
            assert(id_of(s@) is None) by {
                if exists|p: (int, int)| id_slashes(s@, p.0, p.1) {
                    let p = choose|p: (int, int)| id_slashes(s@, p.0, p.1);
                    assert(cs@[p.0] == '/');
                    assert(cs@[p.1] == '/');
                }
            }
            return None;
        }
        let k = find_char(&cs, j + 1, '/');
        if k < n {
            assert(id_of(s@) is None) by {
                if exists|p: (int, int)| id_slashes(s@, p.0, p.1) {
                    let p = choose|p: (int, int)| id_slashes(s@, p.0, p.1);
                    assert(cs@[i as int] == '/' && cs@[j as int] == '/' && cs@[k as int] == '/');
                }
            }
            return None;
        }
        assert(id_slashes(s@, i as int, j as int));
        proof {
            let w = (i as int, j as int);
            assert(id_slashes(s@, w.0, w.1));
            let p = choose|p: (int, int)| id_slashes(s@, p.0, p.1);
            lemma_slashes_unique(s@, i as int, j as int, p.0, p.1);
        }
        let group = sub_chars(&cs, 0, i);
        let name = sub_chars(&cs, i + 1, j);
        let params = sub_chars(&cs, j + 1, n);
        let name = restore_colons_exec(&name);
        Some(
            BenchId {
                group_name: string_of(group.as_slice()),
                bench_name: string_of(name.as_slice()),
                params: string_of(params.as_slice()),
            },
        )
    }
}

} // verus!
