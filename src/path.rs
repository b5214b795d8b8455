use vstd::prelude::*;
use vstd::string::StrSliceExecFns;

verus! {

/// The index of the last `c` in `s`, or -1.
pub open spec fn last_index_of(s: Seq<char>, c: char) -> int
    decreases s.len(),
{
    if s.len() == 0 {
        -1
    } else if s.last() == c {
        s.len() - 1
    } else {
        last_index_of(s.drop_last(), c)
    }
}

/// The base name of a path: the text after its last '/', unless that is
/// empty or "..".
pub open spec fn base_name(p: Seq<char>) -> Option<Seq<char>> {
    let n = p.subrange(last_index_of(p, '/') + 1, p.len() as int);
    if n.len() == 0 || n == seq!['.', '.'] {
        None
    } else {
        Some(n)
    }
}

/// The extension of a path: the text after the last '.' of its base name,
/// where that '.' is not the name's first character.
pub open spec fn extension(p: Seq<char>) -> Option<Seq<char>> {
    match base_name(p) {
        Some(n) => {
            let d = last_index_of(n, '.');
            if d > 0 {
                Some(n.subrange(d + 1, n.len() as int))
            } else {
                None
            }
        },
        None => None,
    }
}

proof fn lemma_last_index_of(s: Seq<char>, c: char, k: int)
    requires
        0 <= k <= s.len(),
        k == 0 || s[k - 1] == c,
        forall|j: int| k <= j < s.len() ==> s[j] != c,
    ensures
        last_index_of(s, c) == k - 1,
    decreases s.len(),
{
    if s.len() > 0 && k < s.len() {
        lemma_last_index_of(s.drop_last(), c, k);
    }
}

/// The characters of `s`.
pub fn chars_of(s: &str) -> (r: Vec<char>)
    ensures
        r@ == s@,
{
    let len = s.unicode_len();
    let mut chars: Vec<char> = Vec::new();
    let mut i: usize = 0;
    while i < len
        invariant
            len == s@.len(),
            i <= len,
            chars@ == s@.take(i as int),
        decreases len - i,
    {
        let c = s.get_char(i);
        chars.push(c);
        assert(chars@ =~= s@.take(i + 1));
        i = i + 1;
    }
    assert(chars@ =~= s@);
    chars
}

/// One past the position of the last `c` in `v`, or 0.
pub fn find_last(v: &Vec<char>, c: char) -> (r: usize)
    ensures
        r as int == last_index_of(v@, c) + 1,
        r <= v@.len(),
{
    let mut k: usize = v.len();
    while k > 0
        invariant
            k <= v@.len(),
            forall|j: int| k <= j < v@.len() ==> v@[j] != c,
        ensures
            k <= v@.len(),
            forall|j: int| k <= j < v@.len() ==> v@[j] != c,
            k == 0 || v@[k - 1] == c,
        decreases k,
    {
        if v[k - 1] == c {
            break;
        }
        k = k - 1;
    }
    proof {
        lemma_last_index_of(v@, c, k as int);
    }
    k
}

/// The characters of `v` from `from` on.
pub fn tail_of(v: &Vec<char>, from: usize) -> (r: Vec<char>)
    requires
        from <= v@.len(),
    ensures
        r@ == v@.subrange(from as int, v@.len() as int),
{
    let mut out: Vec<char> = Vec::new();
    let mut j: usize = from;
    while j < v.len()
        invariant
            from <= j <= v@.len(),
            out@ == v@.subrange(from as int, j as int),
        decreases v@.len() - j,
    {
        out.push(v[j]);
        assert(out@ =~= v@.subrange(from as int, j + 1));
        j = j + 1;
    }
    out
}

/// The base name of the path `p`, as characters.
pub fn base_name_of(p: &str) -> (r: Option<Vec<char>>)
    ensures
        match r {
            Some(n) => base_name(p@) == Some(n@),
            None => base_name(p@) is None,
        },
{
    let chars = chars_of(p);
    let k = find_last(&chars, '/');
    let name = tail_of(&chars, k);
    let dotdot = name.len() == 2 && name[0] == '.' && name[1] == '.';
    assert(dotdot == (name@ == seq!['.', '.'])) by {
        if name@ == seq!['.', '.'] {
            assert(name@[0] == '.' && name@[1] == '.');
        }
        if dotdot {
            assert(name@ =~= seq!['.', '.']);
        }
    }
    if name.len() == 0 || dotdot {
        None
    } else {
        Some(name)
    }
}

/// The extension of the path `p`, as characters.
pub fn extension_of(p: &str) -> (r: Option<Vec<char>>)
    ensures
        match r {
            Some(e) => extension(p@) == Some(e@),
            None => extension(p@) is None,
        },
{
    match base_name_of(p) {
        Some(name) => {
            let d = find_last(&name, '.');
            if d > 1 {
                Some(tail_of(&name, d))
            } else {
                None
            }
        },
        None => None,
    }
}

} // verus!
