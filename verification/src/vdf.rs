use vstd::prelude::*;

use crate::text::{
    chars_of, collapse_backslash_pairs, collapse_backslashes, has_prefix, lines_of, lowercase,
    split_lines, starts_with, string_of, to_lowercase, trim, trim_chars,
};

verus! {

/// The state of the scan of a line for quoted strings.
pub struct ScanState {
    /// The quoted strings closed so far.
    pub parts: Seq<Seq<char>>,
    /// The characters collected since the last quoted string was closed.
    pub current: Seq<char>,
    /// Whether the scan is between an opening and a closing quote.
    pub in_quote: bool,
    /// Whether the previous character was an unconsumed backslash.
    pub escaped: bool,
}

/// The state before any character was read.
pub open spec fn scan_start() -> ScanState {
    ScanState { parts: seq![], current: seq![], in_quote: false, escaped: false }
}

/// One character of the scan: a backslash makes the next character literal
/// (it is kept even outside quotes), a quote opens or closes a string, and
/// other characters are kept only inside quotes.
pub open spec fn scan_step(st: ScanState, ch: char) -> ScanState {
    if st.escaped {
        ScanState { current: st.current.push(ch), escaped: false, ..st }
    } else if ch == '\\' {
        ScanState { escaped: true, ..st }
    } else if ch == '"' {
        if st.in_quote {
            ScanState {
                parts: st.parts.push(st.current),
                current: seq![],
                in_quote: false,
                ..st
            }
        } else {
            ScanState { in_quote: true, ..st }
        }
    } else if st.in_quote {
        ScanState { current: st.current.push(ch), ..st }
    } else {
        st
    }
}

/// The state after reading `s` from state `st`.
pub open spec fn scan_from(st: ScanState, s: Seq<char>) -> ScanState
    decreases s.len(),
{
    if s.len() == 0 {
        st
    } else {
        scan_step(scan_from(st, s.drop_last()), s.last())
    }
}

/// The quoted strings of a line, with backslash escapes resolved.
pub open spec fn quoted(s: Seq<char>) -> Seq<Seq<char>> {
    scan_from(scan_start(), s).parts
}

/// The texts of a sequence of strings.
pub open spec fn views(v: Seq<String>) -> Seq<Seq<char>> {
    v.map_values(|s: String| s@)
}

/// The texts of a sequence of character vectors.
pub open spec fn char_views(v: Seq<Vec<char>>) -> Seq<Seq<char>> {
    v.map_values(|s: Vec<char>| s@)
}

/// Turns character vectors into strings.
pub fn strings_of(v: &Vec<Vec<char>>) -> (r: Vec<String>)
    ensures
        views(r@) == char_views(v@),
{
    let mut r: Vec<String> = Vec::new();
    let mut i: usize = 0;
    while i < v.len()
        invariant
            0 <= i <= v@.len(),
            r@.len() == i,
            forall|k: int| 0 <= k < i ==> #[trigger] r@[k]@ == v@[k]@,
        decreases v@.len() - i,
    {
        r.push(string_of(&v[i]));
        i = i + 1;
    }
    assert(views(r@) =~= char_views(v@));
    r
}

/// The quoted strings of a line given as its characters.
pub fn quoted_parts_chars(line: &Vec<char>) -> (r: Vec<Vec<char>>)
    ensures
        char_views(r@) == quoted(line@),
{
    let mut parts: Vec<Vec<char>> = Vec::new();
    let mut current: Vec<char> = Vec::new();
    let mut in_quote = false;
    let mut escaped = false;
    let mut i: usize = 0;
    assert(line@.take(0) =~= Seq::<char>::empty());
    assert(char_views(parts@) =~= Seq::<Seq<char>>::empty());
    while i < line.len()
        invariant
            0 <= i <= line@.len(),
            scan_from(scan_start(), line@.take(i as int)).parts == char_views(parts@),
            scan_from(scan_start(), line@.take(i as int)).current == current@,
            scan_from(scan_start(), line@.take(i as int)).in_quote == in_quote,
            scan_from(scan_start(), line@.take(i as int)).escaped == escaped,
        decreases line@.len() - i,
    {
        let ch = line[i];
        let ghost t = line@.take(i + 1);
        assert(t.drop_last() =~= line@.take(i as int));
        assert(t.last() == ch);
        let ghost prev = scan_from(scan_start(), line@.take(i as int));
        let ghost next = scan_step(prev, ch);
        assert(scan_from(scan_start(), t) == next);
        if escaped {
            current.push(ch);
            escaped = false;
        } else if ch == '\\' {
            escaped = true;
        } else if ch == '"' {
            if in_quote {
                let ghost before = parts@;
                let done = current;
                current = Vec::new();
                parts.push(done);
                assert(char_views(parts@) =~= char_views(before).push(done@));
                assert(current@ =~= next.current);
            }
            in_quote = !in_quote;
        } else if in_quote {
            current.push(ch);
        }
        i = i + 1;
    }
    assert(line@.take(line@.len() as int) =~= line@);
    parts
}

/// The quoted strings of `line`, in order. A backslash takes the next
/// character literally; characters outside quotes are dropped, except
/// escaped ones, which join the next quoted string.
pub fn quoted_parts(line: &str) -> (r: Vec<String>)
    ensures
        views(r@) == quoted(line@),
{
    let v = chars_of(line);
    let p = quoted_parts_chars(&v);
    strings_of(&p)
}

/// `s` with a backslash put before each backslash and each quote.
pub open spec fn escape(s: Seq<char>) -> Seq<char>
    decreases s.len(),
{
    if s.len() == 0 {
        seq![]
    } else {
        let c = s.last();
        escape(s.drop_last()) + if c == '\\' || c == '"' {
            seq!['\\', c]
        } else {
            seq![c]
        }
    }
}

/// A line holding `parts` as VDF writes them: each escaped, in quotes, and
/// preceded by a tab.
pub open spec fn render_quoted(parts: Seq<Seq<char>>) -> Seq<char>
    decreases parts.len(),
{
    if parts.len() == 0 {
        seq![]
    } else {
        render_quoted(parts.drop_last()) + seq!['\t', '"'] + escape(parts.last()) + seq!['"']
    }
}

proof fn lemma_scan_concat(st: ScanState, a: Seq<char>, b: Seq<char>)
    ensures
        scan_from(st, a + b) == scan_from(scan_from(st, a), b),
    decreases b.len(),
{
    if b.len() == 0 {
        assert(a + b =~= a);
    } else {
        lemma_scan_concat(st, a, b.drop_last());
        assert((a + b).drop_last() =~= a + b.drop_last());
        assert((a + b).last() == b.last());
    }
}

proof fn lemma_scan_escaped(st: ScanState, p: Seq<char>)
    requires
        st.in_quote,
        !st.escaped,
    ensures
        scan_from(st, escape(p)).parts == st.parts,
        scan_from(st, escape(p)).current == st.current + p,
        scan_from(st, escape(p)).in_quote,
        !scan_from(st, escape(p)).escaped,
    decreases p.len(),
{
    if p.len() == 0 {
        assert(escape(p) =~= Seq::<char>::empty());
        assert(scan_from(st, escape(p)) == st);
        assert(st.current + p =~= st.current);
    } else {
        let q = p.drop_last();
        let c = p.last();
        lemma_scan_escaped(st, q);
        let mid = scan_from(st, escape(q));
        let tail = if c == '\\' || c == '"' {
            seq!['\\', c]
        } else {
            seq![c]
        };
        lemma_scan_concat(st, escape(q), tail);
        assert(escape(p) == escape(q) + tail);
        if c == '\\' || c == '"' {
            assert(tail.drop_last() =~= seq!['\\']);
            assert(seq!['\\'].drop_last() =~= Seq::<char>::empty());
            assert(scan_from(mid, seq!['\\']) == scan_step(scan_from(mid, Seq::<char>::empty()), '\\'));
            let m1 = scan_step(mid, '\\');
            assert(m1.escaped && m1.in_quote && m1.parts == st.parts);
            assert(scan_from(mid, tail) == scan_step(m1, c));
        } else {
            assert(tail.drop_last() =~= Seq::<char>::empty());
            assert(scan_from(mid, tail) == scan_step(scan_from(mid, Seq::<char>::empty()), c));
            assert(scan_from(mid, tail) == scan_step(mid, c));
        }
        assert(st.current + q.push(c) =~= (st.current + q).push(c));
        assert(q.push(c) =~= p);
    }
}

proof fn lemma_scan_render(parts: Seq<Seq<char>>)
    ensures
        scan_from(scan_start(), render_quoted(parts)).parts == parts,
        scan_from(scan_start(), render_quoted(parts)).current == Seq::<char>::empty(),
        !scan_from(scan_start(), render_quoted(parts)).in_quote,
        !scan_from(scan_start(), render_quoted(parts)).escaped,
    decreases parts.len(),
{
    if parts.len() == 0 {
        assert(render_quoted(parts) =~= Seq::<char>::empty());
        assert(parts =~= Seq::<Seq<char>>::empty());
    } else {
        let before = parts.drop_last();
        let p = parts.last();
        lemma_scan_render(before);
        let s0 = scan_from(scan_start(), render_quoted(before));
        let open = seq!['\t', '"'];
        lemma_scan_concat(scan_start(), render_quoted(before), open);
        assert(open.drop_last() =~= seq!['\t']);
        assert(seq!['\t'].drop_last() =~= Seq::<char>::empty());
        assert(scan_from(s0, seq!['\t']) == scan_step(scan_from(s0, Seq::<char>::empty()), '\t'));
        assert(scan_from(s0, seq!['\t']) == s0);
        assert(scan_from(s0, open) == scan_step(s0, '"'));
        let s1 = scan_from(s0, open);
        assert(s1.in_quote && !s1.escaped && s1.parts == before && s1.current == Seq::<char>::empty());
        lemma_scan_concat(scan_start(), render_quoted(before) + open, escape(p));
        lemma_scan_escaped(s1, p);
        let s2 = scan_from(s1, escape(p));
        assert(s2.current =~= p);
        lemma_scan_concat(scan_start(), render_quoted(before) + open + escape(p), seq!['"']);
        assert(seq!['"'].drop_last() =~= Seq::<char>::empty());
        assert(scan_from(s2, seq!['"']) == scan_step(scan_from(s2, Seq::<char>::empty()), '"'));
        let s3 = scan_from(s2, seq!['"']);
        assert(s3.parts == before.push(p));
        assert(render_quoted(parts) == render_quoted(before) + open + escape(p) + seq!['"']);
        assert(before.push(p) =~= parts);
    }
}

/// Reading back a line written as VDF writes quoted strings gives the
/// strings again: for any texts, escaping each, quoting it and joining them
/// makes a line whose quoted strings are exactly those texts.
pub proof fn quoted_render_roundtrip(parts: Seq<Seq<char>>)
    ensures
        quoted(render_quoted(parts)) == parts,
{
    lemma_scan_render(parts);
}

/// `s` holds neither a quote nor a backslash.
pub open spec fn plain_separator(s: Seq<char>) -> bool {
    forall|i: int| 0 <= i < s.len() ==> s[i] != '"' && s[i] != '\\'
}

/// A line holding `parts` quoted and escaped, with `seps[0]` before the
/// first, `seps[i]` between the i-th and the next, and the last separator
/// after the last: `seps` has one more element than `parts`.
pub open spec fn render_with(parts: Seq<Seq<char>>, seps: Seq<Seq<char>>) -> Seq<char>
    decreases parts.len(),
{
    if parts.len() == 0 {
        seps[0]
    } else {
        render_with(parts.drop_last(), seps.drop_last()) + seq!['"'] + escape(parts.last())
            + seq!['"'] + seps.last()
    }
}

proof fn lemma_scan_separator(st: ScanState, sep: Seq<char>)
    requires
        !st.in_quote,
        !st.escaped,
        plain_separator(sep),
    ensures
        scan_from(st, sep) == st,
    decreases sep.len(),
{
    if sep.len() > 0 {
        lemma_scan_separator(st, sep.drop_last());
        assert(sep.last() == sep[sep.len() - 1]);
    }
}

proof fn lemma_scan_render_with(parts: Seq<Seq<char>>, seps: Seq<Seq<char>>)
    requires
        seps.len() == parts.len() + 1,
        forall|i: int| 0 <= i < seps.len() ==> plain_separator(#[trigger] seps[i]),
    ensures
        scan_from(scan_start(), render_with(parts, seps)).parts == parts,
        scan_from(scan_start(), render_with(parts, seps)).current == Seq::<char>::empty(),
        !scan_from(scan_start(), render_with(parts, seps)).in_quote,
        !scan_from(scan_start(), render_with(parts, seps)).escaped,
    decreases parts.len(),
{
    if parts.len() == 0 {
        assert(plain_separator(seps[0]));
        lemma_scan_separator(scan_start(), seps[0]);
        assert(parts =~= Seq::<Seq<char>>::empty());
    } else {
        let before = parts.drop_last();
        let bseps = seps.drop_last();
        let p = parts.last();
        assert forall|i: int| 0 <= i < bseps.len() implies plain_separator(#[trigger] bseps[i]) by {
            assert(bseps[i] == seps[i]);
        }
        lemma_scan_render_with(before, bseps);
        let head = render_with(before, bseps);
        let s0 = scan_from(scan_start(), head);
        let q = seq!['"'];
        assert(q.drop_last() =~= Seq::<char>::empty());
        lemma_scan_concat(scan_start(), head, q);
        assert(scan_from(s0, q) == scan_step(scan_from(s0, Seq::<char>::empty()), '"'));
        let s1 = scan_from(s0, q);
        assert(s1.in_quote && !s1.escaped && s1.parts == before && s1.current == Seq::<char>::empty());
        lemma_scan_concat(scan_start(), head + q, escape(p));
        lemma_scan_escaped(s1, p);
        let s2 = scan_from(s1, escape(p));
        assert(s2.current =~= p);
        lemma_scan_concat(scan_start(), head + q + escape(p), q);
        assert(scan_from(s2, q) == scan_step(scan_from(s2, Seq::<char>::empty()), '"'));
        let s3 = scan_from(s2, q);
        assert(s3.parts == before.push(p));
        assert(s3.current == Seq::<char>::empty());
        assert(plain_separator(seps.last()));
        lemma_scan_concat(scan_start(), head + q + escape(p) + q, seps.last());
        lemma_scan_separator(s3, seps.last());
        assert(before.push(p) =~= parts);
        assert(render_with(parts, seps) == head + q + escape(p) + q + seps.last());
    }
}

/// Reading back quoted strings gives them again, whatever separates them:
/// for any texts, escaping each, putting it in quotes and placing the quoted
/// texts between separators that hold no quote and no backslash makes a line
/// whose quoted strings are exactly those texts, in order.
pub proof fn quoted_roundtrip_any_separators(parts: Seq<Seq<char>>, seps: Seq<Seq<char>>)
    requires
        seps.len() == parts.len() + 1,
        forall|i: int| 0 <= i < seps.len() ==> plain_separator(#[trigger] seps[i]),
    ensures
        quoted(render_with(parts, seps)) == parts,
{
    lemma_scan_render_with(parts, seps);
}

/// The map that inserting the pairs of `s` in order builds: a later pair
/// replaces the value of an earlier one with the same key.
pub open spec fn assoc(s: Seq<(Seq<char>, Seq<char>)>) -> Map<Seq<char>, Seq<char>>
    decreases s.len(),
{
    if s.len() == 0 {
        Map::empty()
    } else {
        assoc(s.drop_last()).insert(s.last().0, s.last().1)
    }
}

/// No two pairs of `s` have the same key.
pub open spec fn distinct_keys(s: Seq<(Seq<char>, Seq<char>)>) -> bool {
    forall|i: int, j: int| 0 <= i < s.len() && 0 <= j < s.len() && i != j ==> s[i].0 != s[j].0
}

proof fn lemma_assoc_lookup(s: Seq<(Seq<char>, Seq<char>)>, k: Seq<char>)
    requires
        distinct_keys(s),
    ensures
        assoc(s).contains_key(k) <==> exists|i: int| 0 <= i < s.len() && s[i].0 == k,
        forall|i: int| 0 <= i < s.len() && s[i].0 == k ==> assoc(s)[k] == s[i].1,
    decreases s.len(),
{
    if s.len() > 0 {
        let t = s.drop_last();
        assert(distinct_keys(t));
        lemma_assoc_lookup(t, k);
        if assoc(s).contains_key(k) && s.last().0 != k {
            let i = choose|i: int| 0 <= i < t.len() && t[i].0 == k;
            assert(s[i].0 == k);
        }
        if exists|i: int| 0 <= i < s.len() && s[i].0 == k {
            let i = choose|i: int| 0 <= i < s.len() && s[i].0 == k;
            if i < s.len() - 1 {
                assert(t[i].0 == k);
            }
        }
        assert forall|i: int| 0 <= i < s.len() && s[i].0 == k implies assoc(s)[k] == s[i].1 by {
            if i < s.len() - 1 {
                assert(t[i] == s[i]);
                assert(s.last().0 != k);
            }
        }
    }
}

proof fn lemma_assoc_update(s: Seq<(Seq<char>, Seq<char>)>, i: int, v: Seq<char>)
    requires
        distinct_keys(s),
        0 <= i < s.len(),
    ensures
        assoc(s.update(i, (s[i].0, v))) == assoc(s).insert(s[i].0, v),
        distinct_keys(s.update(i, (s[i].0, v))),
    decreases s.len(),
{
    let u = s.update(i, (s[i].0, v));
    let t = s.drop_last();
    assert(distinct_keys(u));
    if i == s.len() - 1 {
        assert(u.drop_last() =~= t);
        assert(assoc(u) =~= assoc(s).insert(s[i].0, v));
    } else {
        assert(distinct_keys(t));
        lemma_assoc_update(t, i, v);
        assert(u.drop_last() =~= t.update(i, (s[i].0, v)));
        assert(s.last().0 != s[i].0);
        assert(assoc(u) =~= assoc(s).insert(s[i].0, v));
    }
}

/// The key/value pairs of a flat VDF file.
pub struct FlatValues {
    entries: Vec<(String, String)>,
}

impl FlatValues {
    /// The texts of the pairs, in the order they were first inserted.
    pub closed spec fn pairs(&self) -> Seq<(Seq<char>, Seq<char>)> {
        self.entries@.map_values(|e: (String, String)| (e.0@, e.1@))
    }

    /// The map from keys to values.
    pub closed spec fn view(&self) -> Map<Seq<char>, Seq<char>> {
        assoc(self.pairs())
    }

    /// The well-formedness of the pairs: no key occurs twice.
    pub closed spec fn wf(&self) -> bool {
        distinct_keys(self.pairs())
    }

    /// The empty map.
    pub fn new() -> (r: FlatValues)
        ensures
            r.wf(),
            r.view() == Map::<Seq<char>, Seq<char>>::empty(),
    {
        let r = FlatValues { entries: Vec::new() };
        assert(r.pairs() =~= Seq::<(Seq<char>, Seq<char>)>::empty());
        r
    }

    /// The position of `key` among the pairs, if it is there.
    fn find(&self, key: &String) -> (r: Option<usize>)
        requires
            self.wf(),
        ensures
            r is None ==> forall|i: int| 0 <= i < self.pairs().len() ==> self.pairs()[i].0 != key@,
            r matches Some(i) ==> i < self.pairs().len() && self.pairs()[i as int].0 == key@,
    {
        let mut i: usize = 0;
        while i < self.entries.len()
            invariant
                0 <= i <= self.entries@.len(),
                self.pairs().len() == self.entries@.len(),
                forall|k: int| 0 <= k < i ==> self.pairs()[k].0 != key@,
            decreases self.entries@.len() - i,
        {
            assert(self.pairs()[i as int] == (self.entries@[i as int].0@, self.entries@[i as int].1@));
            if self.entries[i].0 == *key {
                return Some(i);
            }
            i = i + 1;
        }
        None
    }

    /// Sets `key` to `value`, replacing an earlier value of the key.
    pub fn insert(&mut self, key: String, value: String)
        requires
            old(self).wf(),
        ensures
            final(self).wf(),
            final(self).view() == old(self).view().insert(key@, value@),
    {
        let ghost before = self.pairs();
        match self.find(&key) {
            Some(i) => {
                proof {
                    lemma_assoc_update(before, i as int, value@);
                }
                self.entries.set(i, (key, value));
                assert(self.pairs() =~= before.update(i as int, (before[i as int].0, value@)));
            },
            None => {
                let ghost kv = key@;
                let ghost vv = value@;
                self.entries.push((key, value));
                assert(self.pairs() =~= before.push((kv, vv)));
                assert(self.pairs().drop_last() =~= before);
            },
        }
    }

    /// The value of `key`, if the file sets it.
    pub fn get(&self, key: &str) -> (r: Option<&String>)
        requires
            self.wf(),
        ensures
            r is Some <==> self.view().contains_key(key@),
            r matches Some(v) ==> v@ == self.view()[key@],
    {
        let k = key.to_owned();
        proof {
            lemma_assoc_lookup(self.pairs(), key@);
        }
        match self.find(&k) {
            Some(i) => {
                assert(self.pairs()[i as int] == (self.entries@[i as int].0@, self.entries@[i as int].1@));
                Some(&self.entries[i].1)
            },
            None => None,
        }
    }
}

/// The pairs that the lines set, each line read on its own: the first two
/// quoted strings of a trimmed line are a key, taken in lower case, and its
/// value; lines with fewer quoted strings set nothing.
pub open spec fn values_of_lines(lines: Seq<Seq<char>>) -> Map<Seq<char>, Seq<char>>
    decreases lines.len(),
{
    if lines.len() == 0 {
        Map::empty()
    } else {
        let m = values_of_lines(lines.drop_last());
        let parts = quoted(trim(lines.last()));
        if parts.len() >= 2 {
            m.insert(lowercase(parts[0]), parts[1])
        } else {
            m
        }
    }
}

/// The key/value pairs of a flat VDF text such as an app manifest.
pub open spec fn flat_values(text: Seq<char>) -> Map<Seq<char>, Seq<char>> {
    values_of_lines(split_lines(text))
}

/// Reads the key/value pairs of a flat VDF text: for each line with at least
/// two quoted strings, the first (in lower case) is set to the second.
pub fn parse_flat_vdf_values(text: &str) -> (r: FlatValues)
    ensures
        r.wf(),
        r.view() == flat_values(text@),
{
    let chars = chars_of(text);
    let lines = lines_of(&chars);
    let ghost ls = split_lines(text@);
    let mut values = FlatValues::new();
    let mut i: usize = 0;
    assert(ls.take(0) =~= Seq::<Seq<char>>::empty());
    while i < lines.len()
        invariant
            0 <= i <= lines@.len() == ls.len(),
            ls == split_lines(text@),
            forall|k: int| 0 <= k < lines@.len() ==> #[trigger] lines@[k]@ == ls[k],
            values.wf(),
            values.view() == values_of_lines(ls.take(i as int)),
        decreases lines@.len() - i,
    {
        let line = trim_chars(&lines[i]);
        let parts = quoted_parts_chars(&line);
        let ghost t = ls.take(i + 1);
        assert(t.drop_last() =~= ls.take(i as int));
        assert(t.last() == lines@[i as int]@);
        if parts.len() >= 2 {
            assert(char_views(parts@)[0] == parts@[0]@);
            assert(char_views(parts@)[1] == parts@[1]@);
            let key_text = string_of(&parts[0]);
            let key = to_lowercase(key_text.as_str());
            let value = string_of(&parts[1]);
            values.insert(key, value);
        }
        i = i + 1;
    }
    assert(ls.take(ls.len() as int) =~= ls);
    values
}

/// The `"path"` key of a library folders file.
pub open spec fn path_key() -> Seq<char> {
    seq!['"', 'p', 'a', 't', 'h', '"']
}

/// One line of a library folders file, read after the paths found so far
/// and whether a `"path"` key is waiting for its value on this line.
pub open spec fn path_step(st: (Seq<Seq<char>>, bool), raw: Seq<char>) -> (Seq<Seq<char>>, bool) {
    let line = trim(raw);
    let parts = quoted(line);
    if has_prefix(line, path_key()) {
        if parts.len() >= 2 {
            (st.0.push(collapse_backslashes(parts[1])), false)
        } else {
            (st.0, true)
        }
    } else if st.1 {
        if parts.len() > 0 {
            (st.0.push(collapse_backslashes(parts[0])), false)
        } else {
            (st.0, false)
        }
    } else {
        st
    }
}

/// The state after reading `lines`.
pub open spec fn paths_of_lines(lines: Seq<Seq<char>>) -> (Seq<Seq<char>>, bool)
    decreases lines.len(),
{
    if lines.len() == 0 {
        (seq![], false)
    } else {
        path_step(paths_of_lines(lines.drop_last()), lines.last())
    }
}

/// The library folder paths that a `libraryfolders.vdf` text names.
pub open spec fn library_paths(text: Seq<char>) -> Seq<Seq<char>> {
    paths_of_lines(split_lines(text)).0
}

/// Reads the library folder paths of a `libraryfolders.vdf` text: the value
/// of each `"path"` key, on its line or on the next one, with doubled
/// backslashes collapsed.
pub fn extract_library_paths(text: &str) -> (r: Vec<String>)
    ensures
        views(r@) == library_paths(text@),
{
    let chars = chars_of(text);
    let lines = lines_of(&chars);
    let ghost ls = split_lines(text@);
    let key: Vec<char> = vec!['"', 'p', 'a', 't', 'h', '"'];
    assert(key@ =~= path_key());
    let mut paths: Vec<Vec<char>> = Vec::new();
    let mut pending = false;
    let mut i: usize = 0;
    assert(ls.take(0) =~= Seq::<Seq<char>>::empty());
    assert(char_views(paths@) =~= Seq::<Seq<char>>::empty());
    while i < lines.len()
        invariant
            0 <= i <= lines@.len() == ls.len(),
            ls == split_lines(text@),
            key@ == path_key(),
            forall|k: int| 0 <= k < lines@.len() ==> #[trigger] lines@[k]@ == ls[k],
            paths_of_lines(ls.take(i as int)) == (char_views(paths@), pending),
        decreases lines@.len() - i,
    {
        let line = trim_chars(&lines[i]);
        let parts = quoted_parts_chars(&line);
        let ghost t = ls.take(i + 1);
        let ghost before = paths@;
        assert(t.drop_last() =~= ls.take(i as int));
        assert(t.last() == lines@[i as int]@);
        if starts_with(&line, &key) {
            if parts.len() >= 2 {
                assert(char_views(parts@)[1] == parts@[1]@);
                let p = collapse_backslash_pairs(&parts[1]);
                paths.push(p);
                assert(char_views(paths@) =~= char_views(before).push(p@));
                pending = false;
            } else {
                pending = true;
            }
            i = i + 1;
            continue;
        }
        if pending {
            if parts.len() > 0 {
                assert(char_views(parts@)[0] == parts@[0]@);
                let p = collapse_backslash_pairs(&parts[0]);
                paths.push(p);
                assert(char_views(paths@) =~= char_views(before).push(p@));
            }
            pending = false;
        }
        i = i + 1;
    }
    assert(ls.take(ls.len() as int) =~= ls);
    strings_of(&paths)
}

} // verus!
