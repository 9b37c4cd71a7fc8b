use vstd::prelude::*;

use crate::order::{has_key, key_le, key_of, lex_lt, stable_sort, Keyed};
use crate::text::{chars_of, lowercase, to_lowercase, trim, trim_str};

verus! {

/// One achievement of the connected app, as the panel lists it.
#[derive(Debug)]
pub struct AchievementRow {
    /// The achievement's API name.
    pub api_name: String,
    /// Its display name (empty where Steam gives none).
    pub display_name: String,
    /// Its description (empty where Steam gives none).
    pub description: String,
    /// Whether Steam marks it hidden.
    pub hidden: bool,
    /// Whether the user has it unlocked.
    pub unlocked: bool,
    /// When it was unlocked, where it is unlocked and Steam knows the time.
    pub unlock_time: Option<u32>,
}

impl Clone for AchievementRow {
    fn clone(&self) -> (r: Self)
        ensures
            r == *self,
    {
        AchievementRow {
            api_name: self.api_name.clone(),
            display_name: self.display_name.clone(),
            description: self.description.clone(),
            hidden: self.hidden,
            unlocked: self.unlocked,
            unlock_time: self.unlock_time,
        }
    }
}

/// The name under which a row is shown: its display name, or its API name
/// where the display name is blank.
pub open spec fn visible_name_of(row: AchievementRow) -> Seq<char> {
    if trim(row.display_name@).len() == 0 {
        row.api_name@
    } else {
        row.display_name@
    }
}

impl AchievementRow {
    /// The name under which the row is shown: the display name, or the API
    /// name where the display name is blank.
    pub fn visible_name(&self) -> (r: &str)
        ensures
            r@ == visible_name_of(*self),
    {
        let t = trim_str(self.display_name.as_str());
        if t.len() == 0 {
            self.api_name.as_str()
        } else {
            self.display_name.as_str()
        }
    }
}

/// What Steam reports of one achievement, before it becomes a row.
#[derive(Debug)]
pub struct RawAchievement {
    /// The achievement's API name.
    pub api_name: String,
    /// Whether it is unlocked and its unlock time, if Steam could tell.
    pub state: Option<(bool, u32)>,
    /// The `name` display attribute, if Steam gave one.
    pub display_name: Option<String>,
    /// The `desc` display attribute, if Steam gave one.
    pub description: Option<String>,
    /// The `hidden` display attribute, if Steam gave one.
    pub hidden: Option<String>,
}

/// The text of an optional string, empty where there is none.
pub open spec fn text_or_empty(s: Option<String>) -> Seq<char> {
    match s {
        Some(t) => t@,
        None => Seq::empty(),
    }
}

/// The row that a raw achievement becomes: an unknown state counts as
/// locked, missing attributes as empty, the `hidden` attribute is true only
/// when it is exactly `1`, and the unlock time is kept only for an unlocked
/// achievement with a time after zero.
pub open spec fn row_of(raw: RawAchievement, row: AchievementRow) -> bool {
    let (unlocked, time) = match raw.state {
        Some(st) => st,
        None => (false, 0u32),
    };
    &&& row.api_name@ == raw.api_name@
    &&& row.display_name@ == text_or_empty(raw.display_name)
    &&& row.description@ == text_or_empty(raw.description)
    &&& row.hidden == (raw.hidden matches Some(h) && h@ == seq!['1'])
    &&& row.unlocked == unlocked
    &&& row.unlock_time == if unlocked && time > 0 {
        Some(time)
    } else {
        None
    }
}

/// Turns what Steam reported of one achievement into a row.
pub fn row_from_raw(raw: RawAchievement) -> (row: AchievementRow)
    ensures
        row_of(raw, row),
{
    let ghost r0 = raw;
    let (unlocked, time) = match raw.state {
        Some(st) => st,
        None => (false, 0u32),
    };
    let display_name = match raw.display_name {
        Some(n) => n,
        None => String::new(),
    };
    let description = match raw.description {
        Some(d) => d,
        None => String::new(),
    };
    let hidden = match &raw.hidden {
        Some(h) => {
            let c = chars_of(h.as_str());
            let one = c.len() == 1 && c[0] == '1';
            assert(one ==> h@ =~= seq!['1']);
            one
        },
        None => false,
    };
    let unlock_time = if unlocked && time > 0 {
        Some(time)
    } else {
        None
    };
    AchievementRow {
        api_name: raw.api_name,
        display_name,
        description,
        hidden,
        unlocked,
        unlock_time,
    }
}

/// The sort key of a row: its visible name in lower case.
pub open spec fn row_key(row: AchievementRow) -> Seq<char> {
    lowercase(visible_name_of(row))
}

/// Whether the row's key is `k`.
pub open spec fn row_has_key(k: Seq<char>) -> spec_fn(AchievementRow) -> bool {
    |row: AchievementRow| row_key(row) == k
}

/// `a` comes before `b` in the lexicographic order or equals it.
pub open spec fn lex_le(a: Seq<char>, b: Seq<char>) -> bool {
    lex_lt(a, b) || a == b
}

/// Rows sort in `String`'s order of their keys: a key comes before each of its
/// proper extensions, and otherwise keys are ordered by the first character at
/// which they differ.
pub proof fn lex_le_is_string_order(p: Seq<char>, s: Seq<char>, x: char, y: char, u: Seq<char>, w: Seq<char>)
    ensures
        lex_le(p, p),
        s.len() > 0 ==> lex_le(p, p + s) && !lex_le(p + s, p),
        x < y ==> lex_le(p.push(x) + u, p.push(y) + w) && !lex_le(p.push(y) + w, p.push(x) + u),
{
    crate::order::lex_lt_is_string_order(p, s, x, y, u, w);
    if s.len() > 0 {
        assert((p + s).len() != p.len());
    }
    if x < y {
        assert((p.push(y) + w)[p.len() as int] == y);
        assert((p.push(x) + u)[p.len() as int] == x);
    }
}

/// The items of keyed rows.
pub open spec fn items(s: Seq<Keyed<AchievementRow>>) -> Seq<AchievementRow> {
    s.map_values(|e: Keyed<AchievementRow>| e.item)
}

proof fn lemma_filter_items(s: Seq<Keyed<AchievementRow>>, k: Seq<char>)
    requires
        forall|i: int| 0 <= i < s.len() ==> key_of(#[trigger] s[i]) == (row_key(s[i].item), 0nat),
    ensures
        items(s).filter(row_has_key(k)) == items(s.filter(has_key::<AchievementRow>((k, 0nat)))),
    decreases s.len(),
{
    broadcast use Seq::lemma_filter_push;

    if s.len() == 0 {
        reveal(Seq::filter);
        assert(items(s) =~= Seq::<AchievementRow>::empty());
        assert(items(s.filter(has_key::<AchievementRow>((k, 0nat)))) =~= Seq::<
            AchievementRow,
        >::empty());
    } else {
        let t = s.drop_last();
        lemma_filter_items(t, k);
        assert(s =~= t.push(s.last()));
        assert(items(s) =~= items(t).push(s.last().item));
        let ft = t.filter(has_key::<AchievementRow>((k, 0nat)));
        assert(items(ft.push(s.last())) =~= items(ft).push(s.last().item));
    }
}

/// Sorts rows by lower-case visible name, keeping the order of rows whose
/// keys are equal.
pub fn sort_rows(rows: Vec<AchievementRow>) -> (r: Vec<AchievementRow>)
    ensures
        r@.len() == rows@.len(),
        forall|i: int, j: int| 0 <= i < j < r@.len() ==> lex_le(row_key(r@[i]), row_key(r@[j])),
        forall|k: Seq<char>| #[trigger] r@.filter(row_has_key(k)) == rows@.filter(row_has_key(k)),
{
    let ghost orig = rows@;
    let mut keyed: Vec<Keyed<AchievementRow>> = Vec::new();
    assert(items(keyed@) =~= orig.take(0));
    for row in it: rows.into_iter()
        invariant
            it.seq() == orig,
            items(keyed@) == orig.take(it.index() as int),
            keyed@.len() == it.index(),
            forall|i: int| 0 <= i < keyed@.len() ==> key_of(#[trigger] keyed@[i]) == (row_key(
                keyed@[i].item,
            ), 0nat),
    {
        let ghost n = it.index();
        assert(row == orig[n as int]);
        let lower = to_lowercase(row.visible_name());
        let key = chars_of(lower.as_str());
        let ghost before = keyed@;
        let ghost rv = row;
        keyed.push(Keyed { key, tie: 0, item: row });
        assert(items(keyed@) =~= items(before).push(rv));
        assert(orig.take(n + 1) =~= orig.take(n as int).push(rv));
    }
    assert(orig.take(orig.len() as int) =~= orig);
    let ghost kv = keyed@;
    let sorted_rows = stable_sort(keyed);
    let ghost sv = sorted_rows@;
    proof {
        broadcast use vstd::seq_lib::group_to_multiset_ensures;

        assert forall|i: int| 0 <= i < sv.len() implies key_of(#[trigger] sv[i]) == (row_key(
            sv[i].item,
        ), 0nat) by {
            assert(sv.contains(sv[i]));
            assert(sv.to_multiset().count(sv[i]) > 0);
            assert(kv.contains(sv[i]));
        }
    }
    let mut r: Vec<AchievementRow> = Vec::new();
    assert(items(sv.take(0)) =~= r@);
    for e in it: sorted_rows.into_iter()
        invariant
            it.seq() == sv,
            r@ == items(sv.take(it.index() as int)),
    {
        let ghost k = it.index();
        assert(e == sv[k as int]);
        r.push(e.item);
        assert(r@ =~= items(sv.take(k + 1)));
    }
    assert(sv.take(sv.len() as int) =~= sv);
    proof {
        assert forall|i: int, j: int| 0 <= i < j < r@.len() implies lex_le(
            row_key(r@[i]),
            row_key(r@[j]),
        ) by {
            assert(key_le(key_of(sv[i]), key_of(sv[j])));
        }
        assert forall|key: Seq<char>| #[trigger] r@.filter(row_has_key(key)) == orig.filter(
            row_has_key(key),
        ) by {
            lemma_filter_items(sv, key);
            lemma_filter_items(kv, key);
        }
    }
    r
}

/// `rows` are the rows that `raws` become, one for one.
pub open spec fn rows_of(raws: Seq<RawAchievement>, rows: Seq<AchievementRow>) -> bool {
    &&& rows.len() == raws.len()
    &&& forall|i: int| 0 <= i < rows.len() ==> #[trigger] row_of(raws[i], rows[i])
}

/// The rows made of what Steam reported, sorted by lower-case visible name
/// with ties kept in Steam's order.
pub fn achievement_rows(raws: Vec<RawAchievement>) -> (r: Vec<AchievementRow>)
    ensures
        exists|rows: Seq<AchievementRow>|
            {
                &&& #[trigger] rows_of(raws@, rows)
                &&& r@.len() == rows.len()
                &&& forall|k: Seq<char>| #[trigger] r@.filter(row_has_key(k)) == rows.filter(
                    row_has_key(k),
                )
            },
        forall|i: int, j: int| 0 <= i < j < r@.len() ==> lex_le(row_key(r@[i]), row_key(r@[j])),
{
    let ghost orig = raws@;
    let mut rows: Vec<AchievementRow> = Vec::new();
    for raw in it: raws.into_iter()
        invariant
            it.seq() == orig,
            rows@.len() == it.index(),
            forall|i: int| 0 <= i < rows@.len() ==> #[trigger] row_of(orig[i], rows@[i]),
    {
        assert(raw == orig[it.index() as int]);
        rows.push(row_from_raw(raw));
    }
    let ghost rv = rows@;
    let r = sort_rows(rows);
    assert(orig.len() == rv.len());
    assert(rows_of(orig, rv));
    assert(forall|k: Seq<char>| #[trigger] r@.filter(row_has_key(k)) == rv.filter(row_has_key(k)));
    r
}

/// The number of unlocked rows of `s`.
pub open spec fn unlocked_count(s: Seq<AchievementRow>) -> nat
    decreases s.len(),
{
    if s.len() == 0 {
        0
    } else {
        unlocked_count(s.drop_last()) + if s.last().unlocked {
            1nat
        } else {
            0nat
        }
    }
}

pub proof fn lemma_unlocked_count_bound(s: Seq<AchievementRow>)
    ensures
        unlocked_count(s) <= s.len(),
    decreases s.len(),
{
    if s.len() > 0 {
        lemma_unlocked_count_bound(s.drop_last());
    }
}

/// The unlocked count is the number of rows whose unlocked flag is set,
/// hidden or not.
pub proof fn unlocked_count_counts_unlocked_rows(s: Seq<AchievementRow>)
    ensures
        unlocked_count(s) == s.filter(|row: AchievementRow| row.unlocked).len(),
    decreases s.len(),
{
    reveal(Seq::filter);
    if s.len() > 0 {
        unlocked_count_counts_unlocked_rows(s.drop_last());
    }
}

/// How many of the rows are unlocked.
pub fn count_unlocked(rows: &Vec<AchievementRow>) -> (n: usize)
    ensures
        n == unlocked_count(rows@),
{
    let mut n: usize = 0;
    let mut i: usize = 0;
    assert(rows@.take(0) =~= Seq::<AchievementRow>::empty());
    while i < rows.len()
        invariant
            0 <= i <= rows@.len(),
            n == unlocked_count(rows@.take(i as int)),
            n <= i,
        decreases rows@.len() - i,
    {
        assert(rows@.take(i + 1).drop_last() =~= rows@.take(i as int));
        if rows[i].unlocked {
            n = n + 1;
        }
        i = i + 1;
    }
    assert(rows@.take(rows@.len() as int) =~= rows@);
    n
}

} // verus!
