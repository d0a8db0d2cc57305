//! Paths: names separated by slashes.
use vstd::prelude::*;
use vstd::string::*;

verus! {

/// A path taken apart: the names of the directories that lead to an
/// entry, and the name of the entry.
pub struct Path {
    pub parents: Vec<String>,
    pub name: String,
}

/// The pieces of `s` from character `from` on, where the piece that is
/// being read began at character `start`: `s` is cut at every slash.
pub open spec fn spec_pieces(s: Seq<char>, from: int, start: int) -> Seq<Seq<char>>
    decreases s.len() - from,
{
    if from >= s.len() {
        seq![s.subrange(start, s.len() as int)]
    } else if s[from] == '/' {
        seq![s.subrange(start, from)] + spec_pieces(s, from + 1, from + 1)
    } else {
        spec_pieces(s, from + 1, start)
    }
}

/// The pieces of `s` between its slashes. A string without a slash is one
/// piece.
pub open spec fn spec_split(s: Seq<char>) -> Seq<Seq<char>> {
    spec_pieces(s, 0, 0)
}

/// The texts of a list of strings.
pub open spec fn spec_texts(v: Seq<String>) -> Seq<Seq<char>> {
    Seq::new(v.len(), |i: int| v[i]@)
}

/// The names that a path consists of: its pieces but the first, which is
/// what stands before the leading slash.
pub open spec fn spec_names(path: Seq<char>) -> Seq<Seq<char>> {
    spec_split(path).drop_first()
}

/// Whether `s` has a slash.
pub open spec fn spec_has_slash(s: Seq<char>) -> bool {
    exists|i: int| 0 <= i < s.len() && s[i] == '/'
}

/// A string has as many pieces as it has slashes, and one more.
pub proof fn lemma_pieces_len(s: Seq<char>, from: int, start: int)
    requires
        0 <= start <= from <= s.len(),
    ensures
        spec_pieces(s, from, start).len() >= 1,
        (exists|i: int| from <= i < s.len() && s[i] == '/') ==> spec_pieces(s, from, start).len() >= 2,
    decreases s.len() - from,
{
    if from < s.len() {
        if s[from] == '/' {
            lemma_pieces_len(s, from + 1, from + 1);
        } else {
            lemma_pieces_len(s, from + 1, start);
            if exists|i: int| from <= i < s.len() && s[i] == '/' {
                let i = choose|i: int| from <= i < s.len() && s[i] == '/';
                assert(from + 1 <= i < s.len() && s[i] == '/');
            }
        }
    }
}

impl Path {
    /// The names of the path, the name of the entry last.
    pub open spec fn view(&self) -> Seq<Seq<char>> {
        spec_texts(self.parents@).push(self.name@)
    }
}

/// Takes the path `path` apart at its slashes. What stands before the
/// first slash is dropped; the last piece is the name of the entry, and
/// the pieces between are the names of the directories that lead to it.
pub fn parse_path(path: &str) -> (p: Path)
    requires
        spec_has_slash(path@),
    ensures
        p@ == spec_names(path@),
{
    let n = path.unicode_len();
    let mut dirs: Vec<String> = Vec::new();
    let mut head = true;
    let mut start: usize = 0;
    let mut i: usize = 0;
    let ghost s = path@;
    proof {
        lemma_pieces_len(s, 0, 0);
    }
    while i < n
        invariant
            0 <= start <= i <= n,
            n == s.len(),
            s == path@,
            head ==> dirs@.len() == 0 && start == 0,
            head ==> spec_pieces(s, i as int, start as int) == spec_split(s),
            !head ==> exists|first: Seq<char>|
                seq![first] + spec_texts(dirs@) + spec_pieces(s, i as int, start as int)
                    == spec_split(s),
        decreases n - i,
    {
        if path.get_char(i) == '/' {
            let ghost piece = s.subrange(start as int, i as int);
            if head {
                head = false;
                proof {
                    assert(seq![piece] + spec_texts(dirs@) + spec_pieces(s, i + 1, i + 1)
                        =~= spec_split(s));
                }
            } else {
                let ghost before = dirs@;
                let ghost first = choose|first: Seq<char>|
                    seq![first] + spec_texts(before) + spec_pieces(s, i as int, start as int)
                        == spec_split(s);
                let piece_str = path.substring_char(start, i).to_owned();
                dirs.push(piece_str);
                proof {
                    assert(spec_texts(dirs@) =~= spec_texts(before).push(piece));
                    assert(seq![first] + spec_texts(dirs@) + spec_pieces(s, i + 1, i + 1)
                        =~= seq![first] + spec_texts(before) + spec_pieces(
                        s,
                        i as int,
                        start as int,
                    ));
                }
            }
            start = i + 1;
        }
        i += 1;
    }
    proof {
        if head {
            assert(spec_pieces(s, n as int, start as int).len() == 1);
            assert(false);
        }
    }
    let name = path.substring_char(start, n).to_owned();
    proof {
        let first = choose|first: Seq<char>|
            seq![first] + spec_texts(dirs@) + spec_pieces(s, n as int, start as int)
                == spec_split(s);
        let all = seq![first] + spec_texts(dirs@) + seq![s.subrange(start as int, n as int)];
        assert(all == spec_split(s));
        assert(all.drop_first() =~= spec_texts(dirs@).push(name@));
    }
    Path { parents: dirs, name }
}

} // verus!
