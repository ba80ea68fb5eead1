//! Textual paths, reduced to what the transfer logic reads from them:
//! the sequence of non-empty components and whether the text ended in a
//! separator. `"b/c/"` parses to components `["b", "c"]` with a trailing
//! separator; repeated and leading separators carry no meaning.

use vstd::prelude::*;
use vstd::string::*;

verus! {

/// The separator that splits a textual path into components.
pub open spec fn sep() -> char {
    '/'
}

/// Components of `s`, starting from a partially read component `cur`:
/// a separator closes `cur` (dropping it when empty), any other
/// character extends it.
pub open spec fn split_from(s: Seq<char>, cur: Seq<char>) -> Seq<Seq<char>>
    decreases s.len(),
{
    if s.len() == 0 {
        if cur.len() == 0 {
            Seq::empty()
        } else {
            seq![cur]
        }
    } else if s[0] == sep() {
        if cur.len() == 0 {
            split_from(s.drop_first(), Seq::empty())
        } else {
            seq![cur] + split_from(s.drop_first(), Seq::empty())
        }
    } else {
        split_from(s.drop_first(), cur.push(s[0]))
    }
}

/// The non-empty components of a textual path.
pub open spec fn path_comps(s: Seq<char>) -> Seq<Seq<char>> {
    split_from(s, Seq::empty())
}

/// Whether the textual path ends in a separator.
pub open spec fn ends_in_sep(s: Seq<char>) -> bool {
    s.len() > 0 && s[s.len() - 1] == sep()
}

/// A path as the transfer logic sees it: its components, and whether its
/// textual form ended in a separator (which only destination resolution
/// reads).
pub struct FsPath {
    pub comps: Vec<String>,
    pub trailing_sep: bool,
}

impl View for FsPath {
    type V = Seq<Seq<char>>;

    open spec fn view(&self) -> Seq<Seq<char>> {
        self.comps@.map_values(|c: String| c@)
    }
}

impl FsPath {
    /// Parse a textual path.
    pub fn parse(s: &str) -> (p: FsPath)
        ensures
            p@ == path_comps(s@),
            p.trailing_sep == ends_in_sep(s@),
            p.wf(),
    {
        proof {
            lemma_split_wf(s@, Seq::empty());
        }
        let n = s.unicode_len();
        let mut comps: Vec<String> = Vec::new();
        let mut start: usize = 0;
        let mut i: usize = 0;
        proof {
            assert(s@.skip(0) =~= s@);
            assert(s@.subrange(0, 0) =~= Seq::<char>::empty());
            assert(comps@.map_values(|c: String| c@) =~= Seq::<Seq<char>>::empty());
            assert(Seq::<Seq<char>>::empty() + path_comps(s@) =~= path_comps(s@));
        }
        while i < n
            invariant
                start <= i <= n,
                n == s@.len(),
                forall|j: int| start <= j < i ==> s@[j] != sep(),
                path_comps(s@) == comps@.map_values(|c: String| c@) + split_from(
                    s@.skip(i as int),
                    s@.subrange(start as int, i as int),
                ),
            decreases n - i,
        {
            let ghost pre = comps@.map_values(|c: String| c@);
            let ghost cur = s@.subrange(start as int, i as int);
            let c = s.get_char(i);
            if c == '/' {
                if start < i {
                    let comp = s.substring_char(start, i).to_owned();
                    comps.push(comp);
                    proof {
                        assert(comps@.map_values(|c: String| c@) =~= pre.push(cur));
                        assert(pre.push(cur) =~= pre + seq![cur]);
                    }
                }
                start = i + 1;
            }
            i = i + 1;
            proof {
                assert(s@.skip(i - 1).drop_first() =~= s@.skip(i as int));
                if c != '/' {
                    assert(cur.push(c) =~= s@.subrange(start as int, i as int));
                } else {
                    assert(s@.subrange(start as int, i as int) =~= Seq::<char>::empty());
                }
            }
        }
        let ghost pre = comps@.map_values(|c: String| c@);
        let ghost cur = s@.subrange(start as int, n as int);
        proof {
            assert(s@.skip(n as int) =~= Seq::<char>::empty());
        }
        if start < n {
            let comp = s.substring_char(start, n).to_owned();
            comps.push(comp);
            proof {
                assert(comps@.map_values(|c: String| c@) =~= pre.push(cur));
                assert(pre + seq![cur] =~= pre.push(cur));
            }
        } else {
            proof {
                assert(comps@.map_values(|c: String| c@) =~= pre);
            }
        }
        let trailing = if n > 0 {
            s.get_char(n - 1) == '/'
        } else {
            false
        };
        FsPath { comps, trailing_sep: trailing }
    }

    /// The last component, the name a resolved destination derives from.
    pub fn file_name(&self) -> (r: Option<&String>)
        ensures
            match r {
                Some(name) => self@.len() > 0 && name@ == self@.last(),
                None => self@.len() == 0,
            },
    {
        if self.comps.len() > 0 {
            Some(&self.comps[self.comps.len() - 1])
        } else {
            None
        }
    }

    /// This path extended by one component.
    pub fn child(&self, name: &String) -> (r: FsPath)
        ensures
            r@ == self@.push(name@),
            r.trailing_sep == false,
    {
        let mut comps: Vec<String> = self.comps.clone();
        comps.push(clone_string(name));
        let r = FsPath { comps, trailing_sep: false };
        proof {
            assert(r@ =~= self@.push(name@));
        }
        r
    }

    /// The path without its last component.
    pub fn parent(&self) -> (r: FsPath)
        requires
            self@.len() > 0,
        ensures
            r@ == self@.drop_last(),
            r.trailing_sep == false,
    {
        let mut comps: Vec<String> = Vec::new();
        let mut i: usize = 0;
        while i < self.comps.len() - 1
            invariant
                self.comps@.len() > 0,
                i <= self.comps@.len() - 1,
                comps@.map_values(|c: String| c@) == self@.take(i as int),
            decreases self.comps@.len() - 1 - i,
        {
            let ghost pre = comps@.map_values(|c: String| c@);
            comps.push(clone_string(&self.comps[i]));
            i = i + 1;
            proof {
                assert(comps@.map_values(|c: String| c@) =~= pre.push(self@[i - 1]));
                assert(self@.take(i as int) =~= pre.push(self@[i - 1]));
            }
        }
        proof {
            assert(self@.take(self@.len() - 1) =~= self@.drop_last());
        }
        FsPath { comps, trailing_sep: false }
    }

    /// A copy of this path, trailing separator dropped: the form a
    /// resolved destination takes.
    pub fn plain_copy(&self) -> (r: FsPath)
        ensures
            r@ == self@,
            r.trailing_sep == false,
    {
        let mut comps: Vec<String> = Vec::new();
        let mut i: usize = 0;
        while i < self.comps.len()
            invariant
                i <= self.comps@.len(),
                comps@.map_values(|c: String| c@) == self@.take(i as int),
            decreases self.comps@.len() - i,
        {
            let ghost pre = comps@.map_values(|c: String| c@);
            comps.push(clone_string(&self.comps[i]));
            i = i + 1;
            proof {
                assert(comps@.map_values(|c: String| c@) =~= pre.push(self@[i - 1]));
                assert(self@.take(i as int) =~= pre.push(self@[i - 1]));
            }
        }
        proof {
            assert(self@.take(self@.len() as int) =~= self@);
        }
        FsPath { comps, trailing_sep: false }
    }

    /// This path extended by a relative component sequence.
    pub fn join(&self, rel: &Vec<String>) -> (r: FsPath)
        ensures
            r@ == self@ + rel@.map_values(|c: String| c@),
            r.trailing_sep == false,
    {
        let mut comps: Vec<String> = self.comps.clone();
        let mut i: usize = 0;
        while i < rel.len()
            invariant
                i <= rel.len(),
                comps@.map_values(|c: String| c@) == self@ + rel@.map_values(
                    |c: String| c@,
                ).take(i as int),
            decreases rel.len() - i,
        {
            let ghost pre = comps@.map_values(|c: String| c@);
            comps.push(clone_string(&rel[i]));
            i = i + 1;
            proof {
                assert(comps@.map_values(|c: String| c@) =~= pre.push(rel@[i - 1]@));
                assert(self@ + rel@.map_values(|c: String| c@).take(i as int) =~= pre.push(
                    rel@[i - 1]@,
                ));
            }
        }
        proof {
            assert(rel@.map_values(|c: String| c@).take(rel@.len() as int) =~= rel@.map_values(
                |c: String| c@,
            ));
        }
        FsPath { comps, trailing_sep: false }
    }
}

/// Clone of a `String`, with its view preserved.
pub fn clone_string(s: &String) -> (r: String)
    ensures
        r@ == s@,
{
    s.clone()
}

/// The textual form of a component sequence: components joined by the
/// separator.
pub open spec fn join_comps(cs: Seq<Seq<char>>) -> Seq<char>
    decreases cs.len(),
{
    if cs.len() == 0 {
        Seq::empty()
    } else if cs.len() == 1 {
        cs[0]
    } else {
        cs[0] + seq![sep()] + join_comps(cs.drop_first())
    }
}

/// Joining one more component appends a separator and the component.
pub proof fn lemma_join_push(cs: Seq<Seq<char>>, c: Seq<char>)
    requires
        cs.len() > 0,
    ensures
        join_comps(cs.push(c)) == join_comps(cs) + seq![sep()] + c,
    decreases cs.len(),
{
    if cs.len() == 1 {
        assert(cs.push(c).drop_first() =~= seq![c]);
        assert(join_comps(seq![c]) == c);
        assert(join_comps(cs.push(c)) =~= cs[0] + seq![sep()] + c);
        assert(join_comps(cs) + seq![sep()] + c =~= cs[0] + seq![sep()] + c);
    } else {
        lemma_join_push(cs.drop_first(), c);
        assert(cs.push(c).drop_first() =~= cs.drop_first().push(c));
        assert(join_comps(cs.push(c)) =~= cs[0] + seq![sep()] + join_comps(
            cs.drop_first().push(c),
        ));
        assert((cs[0] + seq![sep()] + (join_comps(cs.drop_first()) + seq![sep()] + c)) =~= ((cs[0]
            + seq![sep()] + join_comps(cs.drop_first())) + seq![sep()] + c));
        assert(join_comps(cs.push(c)) =~= join_comps(cs) + seq![sep()] + c);
    }
}

/// Whether every component is non-empty and free of the separator, so
/// that rendering and parsing are faithful to the component form.
pub open spec fn wf_comps(cs: Seq<Seq<char>>) -> bool {
    forall|i: int|
        0 <= i < cs.len() ==> (#[trigger] cs[i]).len() > 0 && (forall|j: int|
            0 <= j < cs[i].len() ==> cs[i][j] != sep())
}

impl FsPath {
    /// Well-formed: components as a parse produces them.
    pub open spec fn wf(&self) -> bool {
        wf_comps(self@)
    }
}

/// Every component that `split_from` yields is non-empty and free of the
/// separator.
pub proof fn lemma_split_wf(s: Seq<char>, cur: Seq<char>)
    requires
        cur.len() == 0 || (forall|j: int| 0 <= j < cur.len() ==> cur[j] != sep()),
    ensures
        wf_comps(split_from(s, cur)),
        cur.len() > 0 ==> split_from(s, cur).len() > 0,
    decreases s.len(),
{
    if s.len() == 0 {
    } else if s[0] == sep() {
        lemma_split_wf(s.drop_first(), Seq::empty());
    } else {
        lemma_split_wf(s.drop_first(), cur.push(s[0]));
    }
}

/// Lexicographic order on character sequences: the order in which a
/// directory merge visits entries.
pub open spec fn chars_le(a: Seq<char>, b: Seq<char>) -> bool
    decreases a.len(),
{
    if a.len() == 0 {
        true
    } else if b.len() == 0 {
        false
    } else if (a[0] as u32) < (b[0] as u32) {
        true
    } else if (b[0] as u32) < (a[0] as u32) {
        false
    } else {
        chars_le(a.drop_first(), b.drop_first())
    }
}

/// Two characters with the same scalar value are the same character.
pub proof fn lemma_char_eq(a: char, b: char)
    requires
        a as u32 == b as u32,
    ensures
        a == b,
{
    vstd::utf8::char_u32_cast(a, a as u32);
    vstd::utf8::char_u32_cast(b, b as u32);
}

/// The order is total.
pub proof fn lemma_chars_le_total(a: Seq<char>, b: Seq<char>)
    ensures
        chars_le(a, b) || chars_le(b, a),
    decreases a.len(),
{
    if a.len() > 0 && b.len() > 0 && (a[0] as u32) == (b[0] as u32) {
        lemma_chars_le_total(a.drop_first(), b.drop_first());
    }
}

/// The order is antisymmetric.
pub proof fn lemma_chars_le_antisym(a: Seq<char>, b: Seq<char>)
    requires
        chars_le(a, b),
        chars_le(b, a),
    ensures
        a == b,
    decreases a.len(),
{
    if a.len() > 0 && b.len() > 0 {
        lemma_char_eq(a[0], b[0]);
        lemma_chars_le_antisym(a.drop_first(), b.drop_first());
        assert(a =~= seq![a[0]] + a.drop_first());
        assert(b =~= seq![b[0]] + b.drop_first());
    } else {
        assert(a.len() == 0 && b.len() == 0);
        assert(a =~= b);
    }
}

/// The order is transitive.
pub proof fn lemma_chars_le_trans(a: Seq<char>, b: Seq<char>, c: Seq<char>)
    requires
        chars_le(a, b),
        chars_le(b, c),
    ensures
        chars_le(a, c),
    decreases a.len(),
{
    if a.len() > 0 && b.len() > 0 && c.len() > 0 {
        if (a[0] as u32) == (b[0] as u32) && (b[0] as u32) == (c[0] as u32) {
            lemma_chars_le_trans(a.drop_first(), b.drop_first(), c.drop_first());
        }
    }
}

/// A sequence precedes every extension of itself.
pub proof fn lemma_chars_le_prefix(a: Seq<char>, b: Seq<char>)
    ensures
        chars_le(a, a + b),
    decreases a.len(),
{
    if a.len() > 0 {
        lemma_chars_le_prefix(a.drop_first(), b);
        assert((a + b).drop_first() =~= a.drop_first() + b);
        assert((a + b)[0] == a[0]);
    }
}

/// Equal prefixes do not decide the order.
pub proof fn lemma_chars_le_skip(a: Seq<char>, b: Seq<char>, i: int)
    requires
        0 <= i <= a.len(),
        i <= b.len(),
        forall|j: int| 0 <= j < i ==> a[j] == b[j],
    ensures
        chars_le(a, b) == chars_le(a.skip(i), b.skip(i)),
    decreases i,
{
    if i > 0 {
        assert(a.len() > 0 && b.len() > 0 && a[0] == b[0]);
        lemma_chars_le_skip(a.drop_first(), b.drop_first(), i - 1);
        assert(a.drop_first().skip(i - 1) =~= a.skip(i));
        assert(b.drop_first().skip(i - 1) =~= b.skip(i));
    } else {
        assert(a.skip(0) =~= a);
        assert(b.skip(0) =~= b);
    }
}

/// Decide the lexicographic order on two strings.
pub fn string_le(a: &String, b: &String) -> (r: bool)
    ensures
        r == chars_le(a@, b@),
{
    let an = a.as_str().unicode_len();
    let bn = b.as_str().unicode_len();
    let mut i: usize = 0;
    loop
        invariant
            i <= an,
            i <= bn,
            an == a@.len(),
            bn == b@.len(),
            forall|j: int| 0 <= j < i ==> a@[j] == b@[j],
        decreases an - i,
    {
        if i == an {
            proof {
                lemma_chars_le_skip(a@, b@, i as int);
                assert(a@.skip(i as int).len() == 0);
            }
            return true;
        }
        if i == bn {
            proof {
                lemma_chars_le_skip(a@, b@, i as int);
                assert(b@.skip(i as int).len() == 0);
                assert(a@.skip(i as int).len() > 0);
            }
            return false;
        }
        let ca = a.as_str().get_char(i);
        let cb = b.as_str().get_char(i);
        if (ca as u32) < (cb as u32) {
            proof {
                lemma_chars_le_skip(a@, b@, i as int);
                assert(a@.skip(i as int)[0] == a@[i as int]);
                assert(b@.skip(i as int)[0] == b@[i as int]);
            }
            return true;
        }
        if (cb as u32) < (ca as u32) {
            proof {
                lemma_chars_le_skip(a@, b@, i as int);
                assert(a@.skip(i as int)[0] == a@[i as int]);
                assert(b@.skip(i as int)[0] == b@[i as int]);
            }
            return false;
        }
        proof {
            lemma_char_eq(ca, cb);
        }
        i = i + 1;
    }
}

/// Render a component sequence as text.
pub fn render_comps(comps: &Vec<String>) -> (r: String)
    ensures
        r@ == join_comps(comps@.map_values(|c: String| c@)),
{
    let ghost cs = comps@.map_values(|c: String| c@);
    let mut r = String::new();
    let mut i: usize = 0;
    while i < comps.len()
        invariant
            i <= comps.len(),
            cs == comps@.map_values(|c: String| c@),
            r@ == join_comps(cs.take(i as int)),
        decreases comps.len() - i,
    {
        if i > 0 {
            r.append("/");
            proof {
                reveal_strlit("/");
                assert("/"@ =~= seq![sep()]);
            }
        }
        r.append(comps[i].as_str());
        i = i + 1;
        proof {
            assert(cs.take(i as int) =~= cs.take(i - 1).push(cs[i - 1]));
            if i > 1 {
                lemma_join_push(cs.take(i - 1), cs[i - 1]);
            } else {
                assert(join_comps(cs.take(1)) =~= cs[0]);
            }
        }
    }
    proof {
        assert(cs.take(comps@.len() as int) =~= cs);
    }
    r
}

} // verus!
