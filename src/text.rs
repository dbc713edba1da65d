//! Text helpers: case folding, trimming and the `;`-separated genre tags.

use vstd::prelude::*;
use vstd::string::*;

verus! {

/// What `str::to_lowercase` gives for a string.
pub uninterp spec fn lower_of(s: Seq<char>) -> Seq<char>;

/// Relies on `str::to_lowercase`: the result depends on the characters alone,
/// and an empty string stays empty.
#[verifier::external_body]
pub(crate) fn to_lower(s: &str) -> (r: String)
    ensures
        r@ == lower_of(s@),
        s@.len() == 0 ==> r@.len() == 0,
{
    s.to_lowercase()
}

/// Unicode White_Space, the characters that `str::trim` removes.
pub open spec fn is_white(c: char) -> bool {
    let u = c as u32;
    (0x09 <= u <= 0x0D) || u == 0x20 || u == 0x85 || u == 0xA0 || u == 0x1680 || (0x2000 <= u
        <= 0x200A) || u == 0x2028 || u == 0x2029 || u == 0x202F || u == 0x205F || u == 0x3000
}

fn is_white_exec(c: char) -> (r: bool)
    ensures
        r == is_white(c),
{
    let u = c as u32;
    (0x09 <= u && u <= 0x0D) || u == 0x20 || u == 0x85 || u == 0xA0 || u == 0x1680 || (0x2000 <= u
        && u <= 0x200A) || u == 0x2028 || u == 0x2029 || u == 0x202F || u == 0x205F || u == 0x3000
}

/// `s` without its leading white space.
pub open spec fn strip_front(s: Seq<char>) -> Seq<char>
    decreases s.len(),
{
    if s.len() > 0 && is_white(s[0]) {
        strip_front(s.drop_first())
    } else {
        s
    }
}

/// `s` without its trailing white space.
pub open spec fn strip_back(s: Seq<char>) -> Seq<char>
    decreases s.len(),
{
    if s.len() > 0 && is_white(s.last()) {
        strip_back(s.drop_last())
    } else {
        s
    }
}

/// `s` without leading and trailing white space.
pub open spec fn trim_of(s: Seq<char>) -> Seq<char> {
    strip_back(strip_front(s))
}

/// Removes leading and trailing white space, as `str::trim` does.
pub fn trim(s: &str) -> (r: String)
    ensures
        r@ == trim_of(s@),
{
    let n = s.unicode_len();
    let mut i: usize = 0;
    proof {
        assert(s@.subrange(0, n as int) =~= s@);
    }
    while i < n && is_white_exec(s.get_char(i))
        invariant
            n == s@.len(),
            i <= n,
            strip_front(s@) == strip_front(s@.subrange(i as int, n as int)),
        decreases n - i,
    {
        proof {
            let t = s@.subrange(i as int, n as int);
            assert(t[0] == s@[i as int]);
            assert(t.drop_first() =~= s@.subrange(i as int + 1, n as int));
        }
        i = i + 1;
    }
    proof {
        let t = s@.subrange(i as int, n as int);
        if i < n {
            assert(t[0] == s@[i as int]);
        }
        assert(strip_front(t) == t);
    }
    let mut j: usize = n;
    while j > i && is_white_exec(s.get_char(j - 1))
        invariant
            n == s@.len(),
            i <= j <= n,
            strip_back(s@.subrange(i as int, n as int)) == strip_back(s@.subrange(i as int, j as int)),
        decreases j - i,
    {
        proof {
            let t = s@.subrange(i as int, j as int);
            assert(t.last() == s@[j - 1]);
            assert(t.drop_last() =~= s@.subrange(i as int, j - 1));
        }
        j = j - 1;
    }
    proof {
        let t = s@.subrange(i as int, j as int);
        if j > i {
            assert(t.last() == s@[j - 1]);
        }
        assert(strip_back(t) == t);
    }
    String::from_str(s.substring_char(i, j))
}

/// The pieces of `s` between the separators `sep`, in order. There is always
/// at least one piece; a string without `sep` is one piece.
pub open spec fn split_on(s: Seq<char>, sep: char) -> Seq<Seq<char>>
    decreases s.len(),
{
    if s.len() == 0 {
        seq![Seq::<char>::empty()]
    } else {
        let prev = split_on(s.drop_last(), sep);
        if s.last() == sep {
            prev.push(Seq::<char>::empty())
        } else {
            prev.update(prev.len() - 1, prev.last().push(s.last()))
        }
    }
}

/// Splits `s` at each `sep`, as `str::split` does with a `char` pattern.
pub fn split_chars(s: &str, sep: char) -> (r: Vec<String>)
    ensures
        r@.map_values(|p: String| p@) == split_on(s@, sep),
{
    let n = s.unicode_len();
    let mut out: Vec<String> = Vec::new();
    let mut start: usize = 0;
    let mut i: usize = 0;
    proof {
        assert(out@.map_values(|p: String| p@) =~= Seq::<Seq<char>>::empty());
        assert(s@.subrange(0, 0) =~= Seq::<char>::empty());
        assert(out@.map_values(|p: String| p@).push(s@.subrange(0, 0)) =~= split_on(
            s@.subrange(0, 0),
            sep,
        ));
    }
    while i < n
        invariant
            n == s@.len(),
            start <= i <= n,
            out@.map_values(|p: String| p@).push(s@.subrange(start as int, i as int)) == split_on(
                s@.subrange(0, i as int),
                sep,
            ),
        decreases n - i,
    {
        let c = s.get_char(i);
        let ghost done = out@.map_values(|p: String| p@);
        let ghost cur = s@.subrange(start as int, i as int);
        proof {
            let t = s@.subrange(0, i as int + 1);
            assert(t.drop_last() =~= s@.subrange(0, i as int));
            assert(t.last() == c);
        }
        if c == sep {
            let piece = String::from_str(s.substring_char(start, i));
            out.push(piece);
            start = i + 1;
            proof {
                assert(out@.map_values(|p: String| p@) =~= done.push(cur));
                assert(s@.subrange(start as int, i as int + 1) =~= Seq::<char>::empty());
            }
        } else {
            proof {
                assert(s@.subrange(start as int, i as int + 1) =~= cur.push(c));
                assert(done.push(cur).update(done.len() as int, cur.push(c)) =~= done.push(
                    cur.push(c),
                ));
            }
        }
        i = i + 1;
    }
    let last = String::from_str(s.substring_char(start, n));
    let ghost done = out@.map_values(|p: String| p@);
    out.push(last);
    proof {
        assert(s@.subrange(0, n as int) =~= s@);
        assert(out@.map_values(|p: String| p@) =~= done.push(last@));
    }
    out
}

/// The strings that a list holds, as a set of character sequences.
pub open spec fn str_set(v: Seq<String>) -> Set<Seq<char>> {
    Set::new(|x: Seq<char>| exists|i: int| 0 <= i < v.len() && #[trigger] v[i]@ == x)
}

/// No string stands twice in the list.
pub open spec fn distinct(v: Seq<String>) -> bool {
    forall|i: int, j: int| 0 <= i < j < v.len() ==> v[i]@ != v[j]@
}

/// The genres that a `;`-separated tag names: each piece trimmed, the empty
/// ones dropped, and the rest in lower case where `fold` is set.
pub open spec fn tag_pieces(tag: Seq<char>, fold: bool) -> Set<Seq<char>> {
    let parts = split_on(tag, ';');
    Set::new(
        |g: Seq<char>|
            exists|i: int|
                0 <= i < parts.len() && trim_of(#[trigger] parts[i]).len() > 0 && g == (if fold {
                    lower_of(trim_of(parts[i]))
                } else {
                    trim_of(parts[i])
                }),
    )
}

/// The genres of a track's tag: trimmed and in lower case.
pub open spec fn tag_genres(tag: Seq<char>) -> Set<Seq<char>> {
    tag_pieces(tag, true)
}

/// The genres of a tag as they are written, only trimmed.
pub open spec fn tag_names(tag: Seq<char>) -> Set<Seq<char>> {
    tag_pieces(tag, false)
}

/// Whether `v` holds the string `s`.
pub fn contains_str(v: &Vec<String>, s: &String) -> (r: bool)
    ensures
        r == str_set(v@).contains(s@),
{
    let mut i: usize = 0;
    while i < v.len()
        invariant
            i <= v@.len(),
            forall|k: int| 0 <= k < i ==> v@[k]@ != s@,
        decreases v@.len() - i,
    {
        if v[i] == *s {
            proof {
                assert(v@[i as int]@ == s@);
            }
            return true;
        }
        i = i + 1;
    }
    false
}

/// Adds `s` to the list unless it is there already.
pub fn insert_str(v: &mut Vec<String>, s: String)
    requires
        distinct(old(v)@),
    ensures
        distinct(final(v)@),
        str_set(final(v)@) == str_set(old(v)@).insert(s@),
{
    if !contains_str(v, &s) {
        let ghost sv = s@;
        v.push(s);
        proof {
            assert(forall|k: int| 0 <= k < old(v)@.len() ==> final(v)@[k] == old(v)@[k]);
            assert(final(v)@[old(v)@.len() as int]@ == sv);
        }
    }
    assert(str_set(final(v)@) =~= str_set(old(v)@).insert(s@)) by {
        assert forall|x: Seq<char>| str_set(old(v)@).contains(x) implies #[trigger] str_set(
            final(v)@,
        ).contains(x) by {
            let i = choose|i: int| 0 <= i < old(v)@.len() && #[trigger] old(v)@[i]@ == x;
            assert(final(v)@[i]@ == x);
        }
    }
}

/// Adds every string of `src` to `dst`.
pub fn extend_strs(dst: &mut Vec<String>, src: &Vec<String>)
    requires
        distinct(old(dst)@),
    ensures
        distinct(final(dst)@),
        str_set(final(dst)@) == str_set(old(dst)@).union(str_set(src@)),
{
    let mut i: usize = 0;
    while i < src.len()
        invariant
            i <= src@.len(),
            distinct(dst@),
            str_set(dst@) == str_set(old(dst)@).union(str_set(src@.subrange(0, i as int))),
        decreases src@.len() - i,
    {
        insert_str(dst, src[i].clone());
        proof {
            assert(str_set(src@.subrange(0, i as int + 1)) =~= str_set(src@.subrange(0, i as int)).insert(src@[i as int]@)) by {
                assert(src@.subrange(0, i as int + 1)[i as int] == src@[i as int]);
                assert forall|x: Seq<char>| #[trigger] str_set(src@.subrange(0, i as int)).contains(x) implies str_set(src@.subrange(0, i as int + 1)).contains(x) by {
                    let k = choose|k: int| 0 <= k < i && #[trigger] src@.subrange(0, i as int)[k]@ == x;
                    assert(src@.subrange(0, i as int + 1)[k]@ == x);
                }
                assert forall|x: Seq<char>| #[trigger] str_set(src@.subrange(0, i as int + 1)).contains(x) && x != src@[i as int]@ implies str_set(src@.subrange(0, i as int)).contains(x) by {
                    let k = choose|k: int| 0 <= k < i + 1 && #[trigger] src@.subrange(0, i as int + 1)[k]@ == x;
                    assert(src@.subrange(0, i as int)[k]@ == x);
                }
            }
            assert(str_set(dst@) =~= str_set(old(dst)@).union(str_set(src@.subrange(0, i as int + 1))));
        }
        i = i + 1;
    }
    proof {
        assert(src@.subrange(0, src@.len() as int) =~= src@);
    }
}

/// The genres of a `;`-separated tag, trimmed, in lower case where `fold`
/// is set, each once.
pub fn parse_tag(tag: &str, fold: bool) -> (r: Vec<String>)
    ensures
        distinct(r@),
        str_set(r@) == tag_pieces(tag@, fold),
{
    let parts = split_chars(tag, ';');
    let ghost ps = split_on(tag@, ';');
    let mut out: Vec<String> = Vec::new();
    let mut i: usize = 0;
    while i < parts.len()
        invariant
            i <= parts@.len(),
            parts@.map_values(|p: String| p@) == ps,
            ps == split_on(tag@, ';'),
            distinct(out@),
            str_set(out@) == Set::new(
                |g: Seq<char>|
                    exists|k: int|
                        0 <= k < i && trim_of(#[trigger] ps[k]).len() > 0 && g == (if fold {
                            lower_of(trim_of(ps[k]))
                        } else {
                            trim_of(ps[k])
                        }),
            ),
        decreases parts@.len() - i,
    {
        let t = trim(parts[i].as_str());
        proof {
            assert(ps[i as int] == parts@[i as int]@);
        }
        let ghost before = str_set(out@);
        if !t.as_str().is_empty() {
            if fold {
                let l = to_lower(t.as_str());
                insert_str(&mut out, l);
            } else {
                insert_str(&mut out, t);
            }
        }
        proof {
            let next = Set::new(
                |g: Seq<char>|
                    exists|k: int|
                        0 <= k < i + 1 && trim_of(#[trigger] ps[k]).len() > 0 && g == (if fold {
                            lower_of(trim_of(ps[k]))
                        } else {
                            trim_of(ps[k])
                        }),
            );
            assert forall|g: Seq<char>| #[trigger] next.contains(g) == str_set(out@).contains(g) by {
                if next.contains(g) {
                    let k = choose|k: int|
                        0 <= k < i + 1 && trim_of(#[trigger] ps[k]).len() > 0 && g == (if fold {
                            lower_of(trim_of(ps[k]))
                        } else {
                            trim_of(ps[k])
                        });
                    if k < i {
                        assert(before.contains(g));
                    }
                }
                if before.contains(g) {
                    let k = choose|k: int|
                        0 <= k < i && trim_of(#[trigger] ps[k]).len() > 0 && g == (if fold {
                            lower_of(trim_of(ps[k]))
                        } else {
                            trim_of(ps[k])
                        });
                    assert(next.contains(g));
                }
            }
            assert(str_set(out@) =~= next);
        }
        i = i + 1;
    }
    proof {
        assert(str_set(out@) =~= tag_pieces(tag@, fold));
    }
    out
}

/// The genres of a track's tag, trimmed and in lower case, each once.
pub fn parse_genres(tag: &str) -> (r: Vec<String>)
    ensures
        distinct(r@),
        str_set(r@) == tag_genres(tag@),
{
    parse_tag(tag, true)
}

/// The genres named by the tags of all tracks, as written, each once.
/// Tracks without a tag add none.
pub fn collect_genre_names(tags: &Vec<Option<String>>) -> (r: Vec<String>)
    ensures
        distinct(r@),
        forall|g: Seq<char>|
            #[trigger] str_set(r@).contains(g) <==> exists|i: int|
                0 <= i < tags@.len() && tags@[i].is_some() && #[trigger] tag_names(
                    tags@[i].unwrap()@,
                ).contains(g),
{
    let mut out: Vec<String> = Vec::new();
    let mut i: usize = 0;
    while i < tags.len()
        invariant
            i <= tags@.len(),
            distinct(out@),
            forall|g: Seq<char>|
                #[trigger] str_set(out@).contains(g) <==> exists|k: int|
                    0 <= k < i && tags@[k].is_some() && #[trigger] tag_names(
                        tags@[k].unwrap()@,
                    ).contains(g),
        decreases tags@.len() - i,
    {
        let ghost before = str_set(out@);
        match &tags[i] {
            Some(tag) => {
                let names = parse_tag(tag.as_str(), false);
                extend_strs(&mut out, &names);
            },
            None => {},
        }
        proof {
            assert forall|g: Seq<char>|
                #[trigger] str_set(out@).contains(g) <==> exists|k: int|
                    0 <= k < i + 1 && tags@[k].is_some() && #[trigger] tag_names(
                        tags@[k].unwrap()@,
                    ).contains(g) by {
                if str_set(out@).contains(g) && !before.contains(g) {
                    assert(tags@[i as int].is_some() && tag_names(tags@[i as int].unwrap()@).contains(g));
                }
                if exists|k: int|
                    0 <= k < i + 1 && tags@[k].is_some() && #[trigger] tag_names(
                        tags@[k].unwrap()@,
                    ).contains(g) {
                    let k = choose|k: int|
                        0 <= k < i + 1 && tags@[k].is_some() && #[trigger] tag_names(
                            tags@[k].unwrap()@,
                        ).contains(g);
                    if k < i {
                        assert(before.contains(g));
                    }
                }
            }
        }
        i = i + 1;
    }
    out
}

/// The text of a list of lines: each followed by a newline.
pub open spec fn joined_lines(lines: Seq<String>) -> Seq<char>
    decreases lines.len(),
{
    if lines.len() == 0 {
        Seq::empty()
    } else {
        joined_lines(lines.drop_last()) + lines.last()@ + "\n"@
    }
}

/// Writes each line followed by a newline; no lines give the empty text.
pub fn to_lines(lines: &Vec<String>) -> (r: String)
    ensures
        r@ == joined_lines(lines@),
{
    let mut out = String::new();
    let mut i: usize = 0;
    proof {
        assert(lines@.subrange(0, 0) =~= Seq::<String>::empty());
    }
    while i < lines.len()
        invariant
            i <= lines@.len(),
            out@ == joined_lines(lines@.subrange(0, i as int)),
        decreases lines@.len() - i,
    {
        out.append(lines[i].as_str());
        out.append("\n");
        proof {
            let s1 = lines@.subrange(0, i as int + 1);
            assert(s1.drop_last() =~= lines@.subrange(0, i as int));
            assert(s1.last() == lines@[i as int]);
        }
        i = i + 1;
    }
    proof {
        assert(lines@.subrange(0, lines@.len() as int) =~= lines@);
    }
    out
}

} // verus!
