//! The HTTP gateway's request lines: `GET /get/<key> ...`,
//! `GET /set/<key>/<value> ...` and `GET /del/<key> ...`, each path segment
//! non-empty and free of `/` and spaces, and the path followed by a space
//! and at least one more character.
use vstd::prelude::*;
use vstd::string::StrSliceExecFns;

use crate::codec::{chars_of, find_char, lemma_first_at};
use crate::message::{Command, CommandView};

verus! {

/// `GET /` followed by the three letters of a route and a `/`.
pub open spec fn route_prefix(a: char, b: char, c: char) -> Seq<char> {
    seq!['G', 'E', 'T', ' ', '/', a, b, c, '/']
}

/// `line` starts with `prefix`.
pub open spec fn starts_with(line: Seq<char>, prefix: Seq<char>) -> bool {
    line.len() >= prefix.len() && line.take(prefix.len() as int) == prefix
}

/// The path that ends at the first space of `tail`, when at least one
/// character follows that space.
pub open spec fn path_of(tail: Seq<char>) -> Option<Seq<char>> {
    match tail.index_of_first(' ') {
        Some(e) => if e + 1 < tail.len() {
            Some(tail.take(e))
        } else {
            None
        },
        None => None,
    }
}

/// A non-empty path segment without `/`.
pub open spec fn is_segment(s: Seq<char>) -> bool {
    s.len() > 0 && !s.contains('/')
}

/// The key of a one-segment path.
pub open spec fn single_key(tail: Seq<char>) -> Option<Seq<char>> {
    match path_of(tail) {
        Some(p) => if is_segment(p) {
            Some(p)
        } else {
            None
        },
        None => None,
    }
}

/// The key and value of a two-segment path.
pub open spec fn key_and_value(tail: Seq<char>) -> Option<(Seq<char>, Seq<char>)> {
    match path_of(tail) {
        Some(p) => match p.index_of_first('/') {
            Some(s) => if is_segment(p.take(s)) && is_segment(p.skip(s + 1)) {
                Some((p.take(s), p.skip(s + 1)))
            } else {
                None
            },
            None => None,
        },
        None => None,
    }
}

/// The command a gateway request line asks for, if it is one of the three
/// routes.
pub open spec fn request_command(line: Seq<char>) -> Option<CommandView> {
    let tail = line.skip(9);
    if starts_with(line, route_prefix('g', 'e', 't')) {
        match single_key(tail) {
            Some(k) => Some(CommandView::Get { key: k }),
            None => None,
        }
    } else if starts_with(line, route_prefix('s', 'e', 't')) {
        match key_and_value(tail) {
            Some((k, v)) => Some(CommandView::Put { key: k, value: v }),
            None => None,
        }
    } else if starts_with(line, route_prefix('d', 'e', 'l')) {
        match single_key(tail) {
            Some(k) => Some(CommandView::Delete { key: k }),
            None => None,
        }
    } else {
        None
    }
}

/// `s[from..to]` holds no `/`.
fn no_slash_between(s: &Vec<char>, from: usize, to: usize) -> (r: bool)
    requires
        from <= to <= s.len(),
    ensures
        r == !s@.subrange(from as int, to as int).contains('/'),
{
    let ghost sub = s@.subrange(from as int, to as int);
    match find_char(s, '/', from) {
        Some(i) => {
            if i < to {
                assert(sub[i - from] == '/');
                false
            } else {
                proof {
                    if sub.contains('/') {
                        let j = choose|j: int| 0 <= j < sub.len() && sub[j] == '/';
                        assert(s@[from + j] == '/');
                    }
                }
                true
            }
        },
        None => {
            proof {
                if sub.contains('/') {
                    let j = choose|j: int| 0 <= j < sub.len() && sub[j] == '/';
                    assert(s@[from + j] == '/');
                }
            }
            true
        },
    }
}

/// The command a gateway request line asks for, or `None` for a line that
/// matches none of the routes.
pub fn parse_request_line(line: &str) -> (r: Option<Command>)
    ensures
        match r {
            Some(c) => request_command(line@) == Some(c@),
            None => request_command(line@) is None,
        },
{
    let chars = chars_of(line);
    let ghost l = line@;
    let n = chars.len();
    if n < 9 || chars[0] != 'G' || chars[1] != 'E' || chars[2] != 'T' || chars[3] != ' '
        || chars[4] != '/' || chars[8] != '/' {
        proof {
            if n >= 9 {
                assert(l.take(9)[0] == l[0]);
                assert(l.take(9)[1] == l[1]);
                assert(l.take(9)[2] == l[2]);
                assert(l.take(9)[3] == l[3]);
                assert(l.take(9)[4] == l[4]);
                assert(l.take(9)[8] == l[8]);
            }
        }
        return None;
    }
    let (a, b, c) = (chars[5], chars[6], chars[7]);
    let is_get = a == 'g' && b == 'e' && c == 't';
    let is_set = a == 's' && b == 'e' && c == 't';
    let is_del = a == 'd' && b == 'e' && c == 'l';
    proof {
        assert(l.take(9) =~= route_prefix(a, b, c));
    }
    if !(is_get || is_set || is_del) {
        return None;
    }
    let ghost tail = l.skip(9);
    let space = match find_char(&chars, ' ', 9) {
        Some(e) => e,
        None => {
            proof {
                tail.index_of_first_ensures(' ');
                if tail.contains(' ') {
                    let j = choose|j: int| 0 <= j < tail.len() && tail[j] == ' ';
                    assert(chars@[9 + j] == ' ');
                }
            }
            return None;
        },
    };
    proof {
        lemma_first_at(tail, ' ', space - 9);
    }
    if space + 1 >= n {
        return None;
    }
    let ghost path = tail.take(space - 9);
    assert(path =~= chars@.subrange(9, space as int));
    if is_set {
        let slash = match find_char(&chars, '/', 9) {
            Some(s) => s,
            None => {
                proof {
                    if path.contains('/') {
                        let j = choose|j: int| 0 <= j < path.len() && path[j] == '/';
                        assert(chars@[9 + j] == '/');
                    }
                    path.index_of_first_ensures('/');
                }
                return None;
            },
        };
        if slash >= space {
            proof {
                if path.contains('/') {
                    let j = choose|j: int| 0 <= j < path.len() && path[j] == '/';
                    assert(chars@[9 + j] == '/');
                }
                path.index_of_first_ensures('/');
            }
            return None;
        }
        proof {
            lemma_first_at(path, '/', slash - 9);
            assert(path.take(slash - 9) =~= chars@.subrange(9, slash as int));
            assert(path.skip(slash - 9 + 1) =~= chars@.subrange(slash + 1, space as int));
            let key_part = path.take(slash - 9);
            assert(!key_part.contains('/')) by {
                if key_part.contains('/') {
                    let j = choose|j: int| 0 <= j < key_part.len() && key_part[j] == '/';
                    assert(chars@[9 + j] == '/');
                }
            }
        }
        if slash == 9 || slash + 1 == space || !no_slash_between(&chars, slash + 1, space) {
            return None;
        }
        let key = String::from_str(line.substring_char(9, slash));
        let value = String::from_str(line.substring_char(slash + 1, space));
        return Some(Command::Put { key, value });
    }
    if space == 9 || !no_slash_between(&chars, 9, space) {
        return None;
    }
    let key = String::from_str(line.substring_char(9, space));
    if is_get {
        Some(Command::Get { key })
    } else {
        Some(Command::Delete { key })
    }
}

} // verus!
