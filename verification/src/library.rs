use std::collections::BTreeMap;
use vstd::prelude::*;
use vstd::std_specs::iter::IteratorSpec;

use crate::number::{decimal, decimal_string, parse_u32, parse_u32_spec};
use crate::order::{key_lt, key_of, stable_sort, Keyed};
use crate::text::{chars_of, concat, concat3, ends_with, has_prefix, has_suffix, lowercase, starts_with, to_lowercase};
use crate::vdf::{flat_values, parse_flat_vdf_values};

verus! {

/// An installed Steam game found in a library folder.
#[derive(Debug)]
pub struct SteamGame {
    /// The game's AppID.
    pub app_id: u32,
    /// The name its manifest gives.
    pub name: String,
    /// The folder under `steamapps/common` that it is installed in.
    pub install_dir: String,
    /// The library folder whose manifest names it.
    pub library_path: String,
}

impl Clone for SteamGame {
    fn clone(&self) -> (r: Self)
        ensures
            r == *self,
    {
        SteamGame {
            app_id: self.app_id,
            name: self.name.clone(),
            install_dir: self.install_dir.clone(),
            library_path: self.library_path.clone(),
        }
    }
}

impl Default for SteamGame {
    fn default() -> (r: Self)
        ensures
            r.app_id == 0,
            r.name@ == Seq::<char>::empty(),
            r.install_dir@ == Seq::<char>::empty(),
            r.library_path@ == Seq::<char>::empty(),
    {
        SteamGame {
            app_id: 0,
            name: String::new(),
            install_dir: String::new(),
            library_path: String::new(),
        }
    }
}

/// The start of the URL of a game's header image on the Steam CDN.
pub open spec fn capsule_prefix() -> Seq<char> {
    "https://cdn.cloudflare.steamstatic.com/steam/apps/"@
}

/// The end of the URL of a game's header image on the Steam CDN.
pub open spec fn capsule_suffix() -> Seq<char> {
    "/header.jpg"@
}

impl SteamGame {
    /// The URL of the game's header image on the Steam CDN.
    pub fn capsule_url(&self) -> (r: String)
        ensures
            r@ == capsule_prefix() + decimal(self.app_id as nat) + capsule_suffix(),
    {
        let id = decimal_string(self.app_id as u64);
        concat3("https://cdn.cloudflare.steamstatic.com/steam/apps/", id.as_str(), "/header.jpg")
    }
}

/// Whether a file name is that of an app manifest: `appmanifest_*.acf`.
pub open spec fn is_manifest_name(name: Seq<char>) -> bool {
    has_prefix(name, "appmanifest_"@) && has_suffix(name, ".acf"@)
}

/// Whether `file_name` is that of an app manifest (`appmanifest_*.acf`).
pub fn is_app_manifest_name(file_name: &str) -> (b: bool)
    ensures
        b == is_manifest_name(file_name@),
{
    let name = chars_of(file_name);
    let prefix = chars_of("appmanifest_");
    let suffix = chars_of(".acf");
    starts_with(&name, &prefix) && ends_with(&name, &suffix)
}

/// The AppID that a manifest's pairs give, if its `appid` value reads as one.
pub open spec fn manifest_app_id(m: Map<Seq<char>, Seq<char>>) -> Option<u32> {
    if m.contains_key("appid"@) {
        parse_u32_spec(m["appid"@])
    } else {
        None
    }
}

/// The name of the game whose manifest pairs are `m`: its `name` value, or
/// `App <id>` where there is none.
pub open spec fn manifest_name(m: Map<Seq<char>, Seq<char>>, id: u32) -> Seq<char> {
    if m.contains_key("name"@) {
        m["name"@]
    } else {
        "App "@ + decimal(id as nat)
    }
}

/// The install folder of the game whose manifest pairs are `m`, or nothing.
pub open spec fn manifest_install_dir(m: Map<Seq<char>, Seq<char>>) -> Seq<char> {
    if m.contains_key("installdir"@) {
        m["installdir"@]
    } else {
        Seq::empty()
    }
}

/// The game that an app manifest text describes, found in `library_path`;
/// nothing where the manifest has no `appid` that reads as a number.
pub fn game_from_manifest(manifest: &str, library_path: &str) -> (r: Option<SteamGame>)
    ensures
        manifest_app_id(flat_values(manifest@)) is None ==> r is None,
        manifest_app_id(flat_values(manifest@)) matches Some(id) ==> (r matches Some(g) && g.app_id
            == id && g.name@ == manifest_name(flat_values(manifest@), id) && g.install_dir@
            == manifest_install_dir(flat_values(manifest@)) && g.library_path@ == library_path@),
{
    let values = parse_flat_vdf_values(manifest);
    let app_id = match values.get("appid") {
        Some(v) => {
            let chars = chars_of(v.as_str());
            parse_u32(&chars)
        },
        None => None,
    };
    let app_id = match app_id {
        Some(id) => id,
        None => {
            return None;
        },
    };
    let name = match values.get("name") {
        Some(n) => n.clone(),
        None => {
            let id = decimal_string(app_id as u64);
            concat("App ", id.as_str())
        },
    };
    let install_dir = match values.get("installdir") {
        Some(d) => d.clone(),
        None => String::new(),
    };
    Some(SteamGame { app_id, name, install_dir, library_path: library_path.to_owned() })
}

/// The sort key of a game in the list: its name in lower case, then its AppID.
pub open spec fn game_key(g: SteamGame) -> (Seq<char>, nat) {
    (lowercase(g.name@), g.app_id as nat)
}

/// Whether some game of `s` has the AppID `id`.
pub open spec fn has_app(s: Seq<SteamGame>, id: u32) -> bool {
    exists|j: int| 0 <= j < s.len() && s[j].app_id == id
}

/// The games of `s` whose AppID did not occur earlier in `s`, in order.
pub open spec fn first_per_app(s: Seq<SteamGame>) -> Seq<SteamGame>
    decreases s.len(),
{
    if s.len() == 0 {
        seq![]
    } else {
        let r = first_per_app(s.drop_last());
        if has_app(r, s.last().app_id) {
            r
        } else {
            r.push(s.last())
        }
    }
}

proof fn lemma_first_per_app(s: Seq<SteamGame>)
    ensures
        forall|i: int, j: int|
            #![trigger first_per_app(s)[i], first_per_app(s)[j]]
            0 <= i < j < first_per_app(s).len() ==> first_per_app(s)[i].app_id != first_per_app(
                s,
            )[j].app_id,
        forall|id: u32| has_app(first_per_app(s), id) <==> has_app(s, id),
    decreases s.len(),
{
    if s.len() > 0 {
        let t = s.drop_last();
        lemma_first_per_app(t);
        let r = first_per_app(t);
        let x = s.last();
        let f = first_per_app(s);
        assert forall|id: u32| has_app(f, id) <==> has_app(s, id) by {
            if has_app(t, id) {
                let j = choose|j: int| 0 <= j < t.len() && t[j].app_id == id;
                assert(s[j].app_id == id);
            }
            if has_app(s, id) && !has_app(t, id) {
                let j = choose|j: int| 0 <= j < s.len() && s[j].app_id == id;
                if j < s.len() - 1 {
                    assert(t[j].app_id == id);
                }
                assert(x.app_id == id);
            }
            if has_app(r, x.app_id) {
                assert(f == r);
            } else {
                assert(f == r.push(x));
                if has_app(r, id) {
                    let j = choose|j: int| 0 <= j < r.len() && r[j].app_id == id;
                    assert(f[j] == r[j]);
                }
                if x.app_id == id {
                    assert(f[r.len() as int] == x);
                }
                if has_app(f, id) {
                    let j = choose|j: int| 0 <= j < f.len() && f[j].app_id == id;
                    if j < r.len() {
                        assert(f[j] == r[j]);
                    } else {
                        assert(f[j] == x);
                    }
                }
            }
        }
        if !has_app(r, x.app_id) {
            assert forall|i: int, j: int| 0 <= i < j < f.len() implies f[i].app_id != f[j].app_id by {
                if j == r.len() {
                    assert(f[i] == r[i]);
                    assert(f[j] == x);
                } else {
                    assert(f[i] == r[i]);
                    assert(f[j] == r[j]);
                }
            }
        }
    }
}

/// `m` maps the AppID of each game of `firsts` to that game, and holds
/// nothing else.
pub open spec fn maps_firsts(m: Map<u32, SteamGame>, firsts: Seq<SteamGame>) -> bool {
    &&& forall|k: u32| #[trigger] m.contains_key(k) ==> m[k].app_id == k
    &&& forall|g: SteamGame| #[trigger] firsts.contains(g) <==> (m.contains_key(g.app_id) && m[g.app_id] == g)
}

proof fn lemma_maps_firsts_has_app(m: Map<u32, SteamGame>, firsts: Seq<SteamGame>, id: u32)
    requires
        maps_firsts(m, firsts),
    ensures
        m.contains_key(id) <==> has_app(firsts, id),
{
    if m.contains_key(id) {
        let g = m[id];
        assert(firsts.contains(g));
        let j = choose|j: int| 0 <= j < firsts.len() && firsts[j] == g;
        assert(firsts[j].app_id == id);
    }
    if has_app(firsts, id) {
        let j = choose|j: int| 0 <= j < firsts.len() && firsts[j].app_id == id;
        assert(firsts.contains(firsts[j]));
    }
}

proof fn lemma_maps_firsts_insert(m: Map<u32, SteamGame>, firsts: Seq<SteamGame>, g: SteamGame)
    requires
        maps_firsts(m, firsts),
        !m.contains_key(g.app_id),
    ensures
        maps_firsts(m.insert(g.app_id, g), firsts.push(g)),
{
    let m2 = m.insert(g.app_id, g);
    let f2 = firsts.push(g);
    assert forall|h: SteamGame| #[trigger] f2.contains(h) <==> (m2.contains_key(h.app_id) && m2[h.app_id] == h) by {
        if f2.contains(h) {
            let j = choose|j: int| 0 <= j < f2.len() && f2[j] == h;
            if j < firsts.len() {
                assert(firsts[j] == h);
                assert(firsts.contains(h));
            }
        }
        if m2.contains_key(h.app_id) && m2[h.app_id] == h {
            if h.app_id == g.app_id {
                assert(f2[firsts.len() as int] == h);
            } else {
                assert(firsts.contains(h));
                let j = choose|j: int| 0 <= j < firsts.len() && firsts[j] == h;
                assert(f2[j] == h);
            }
        }
    }
}

/// The list of installed games made from the games found in the libraries'
/// manifests: the first game found of each AppID, ordered by lower-case name
/// and, among equal names, by AppID.
pub fn collect_games(found: Vec<SteamGame>) -> (r: Vec<SteamGame>)
    ensures
        forall|i: int, j: int| 0 <= i < j < r@.len() ==> key_lt(game_key(r@[i]), game_key(r@[j])),
        forall|g: SteamGame| r@.contains(g) <==> first_per_app(found@).contains(g),
        forall|i: int, j: int| 0 <= i < j < r@.len() ==> r@[i].app_id != r@[j].app_id,
{
    let ghost orig = found@;
    let mut by_app: BTreeMap<u32, SteamGame> = BTreeMap::new();
    assert(orig.take(0) =~= Seq::<SteamGame>::empty());
    assert(maps_firsts(by_app@, first_per_app(orig.take(0))));
    for g in it: found.into_iter()
        invariant
            it.seq() == orig,
            maps_firsts(by_app@, first_per_app(orig.take(it.index() as int))),
    {
        let ghost n = it.index();
        assert(g == orig[n as int]);
        let ghost t = orig.take(n + 1);
        let ghost f = first_per_app(orig.take(n as int));
        assert(t.drop_last() =~= orig.take(n as int));
        assert(t.last() == g);
        proof {
            lemma_maps_firsts_has_app(by_app@, f, g.app_id);
        }
        if !by_app.contains_key(&g.app_id) {
            proof {
                lemma_maps_firsts_insert(by_app@, f, g);
            }
            by_app.insert(g.app_id, g);
        }
    }
    assert(orig.take(orig.len() as int) =~= orig);
    let ghost firsts = first_per_app(orig);
    let ghost m = by_app@;
    let values = by_app.values();
    let ghost key_seq = choose|key_seq: Seq<u32>|
        {
            &&& key_seq.to_set() == m.dom()
            &&& key_seq.no_duplicates()
            &&& IteratorSpec::remaining(&values) == key_seq.map(|i: int, k: u32| &m[k])
        };
    let mut kept: Vec<Keyed<SteamGame>> = Vec::new();
    for v in it: values
        invariant
            kept@.len() == it.index(),
            it.seq() == key_seq.map(|i: int, k: u32| &m[k]),
            forall|i: int| 0 <= i < kept@.len() ==> #[trigger] kept@[i].item == *it.seq()[i],
            forall|i: int| 0 <= i < kept@.len() ==> key_of(#[trigger] kept@[i]) == game_key(
                kept@[i].item,
            ),
    {
        let item = v.clone();
        let lower = to_lowercase(item.name.as_str());
        let key = chars_of(lower.as_str());
        let tie = item.app_id as u64;
        kept.push(Keyed { key, tie, item });
    }
    let ghost kept_view = kept@;
    proof {
        assert(kept_view.len() == key_seq.len());
        assert forall|i: int| 0 <= i < kept_view.len() implies #[trigger] kept_view[i].item == m[key_seq[i]] && m.contains_key(key_seq[i]) by {
            assert(key_seq.to_set().contains(key_seq[i]));
        }
        assert forall|i: int, j: int|
            0 <= i < kept_view.len() && 0 <= j < kept_view.len() && i != j implies key_of(kept_view[i])
            != key_of(kept_view[j]) by {
            assert(kept_view[i].item == m[key_seq[i]]);
            assert(kept_view[j].item == m[key_seq[j]]);
            assert(m.contains_key(key_seq[i]));
            assert(m.contains_key(key_seq[j]));
        }
        assert forall|g: SteamGame| firsts.contains(g) <==> kept_view.map_values(|e: Keyed<SteamGame>| e.item).contains(g) by {
            let items = kept_view.map_values(|e: Keyed<SteamGame>| e.item);
            if firsts.contains(g) {
                assert(m.contains_key(g.app_id));
                assert(m.dom().contains(g.app_id));
                assert(key_seq.to_set().contains(g.app_id));
                let i = choose|i: int| 0 <= i < key_seq.len() && key_seq[i] == g.app_id;
                assert(items[i] == g);
            }
            if items.contains(g) {
                let i = choose|i: int| 0 <= i < items.len() && items[i] == g;
                assert(kept_view[i].item == m[key_seq[i]]);
                assert(m.contains_key(key_seq[i]));
                assert(m[key_seq[i]].app_id == key_seq[i]);
            }
        }
    }
    let sorted = stable_sort(kept);
    proof {
        broadcast use vstd::seq_lib::group_to_multiset_ensures;

        assert forall|i: int| 0 <= i < sorted@.len() implies kept_view.contains(#[trigger] sorted@[i]) by {
            assert(sorted@.contains(sorted@[i]));
            assert(sorted@.to_multiset().count(sorted@[i]) > 0);
        }
    }
    let ghost sorted_view = sorted@;
    let mut r: Vec<SteamGame> = Vec::new();
    for e in it: sorted.into_iter()
        invariant
            it.seq() == sorted_view,
            r@.len() == it.index(),
            forall|i: int| 0 <= i < r@.len() ==> #[trigger] r@[i] == sorted_view[i].item,
    {
        r.push(e.item);
    }
    proof {
        broadcast use vstd::seq_lib::group_to_multiset_ensures;

        let items = kept_view.map_values(|e: Keyed<SteamGame>| e.item);
        assert forall|i: int| 0 <= i < r@.len() implies game_key(#[trigger] r@[i]) == key_of(
            sorted_view[i],
        ) by {
            assert(kept_view.contains(sorted_view[i]));
        }
        assert forall|g: SteamGame| r@.contains(g) <==> firsts.contains(g) by {
            if r@.contains(g) {
                let i = choose|i: int| 0 <= i < r@.len() && r@[i] == g;
                assert(kept_view.contains(sorted_view[i]));
                let m2 = choose|m2: int| 0 <= m2 < kept_view.len() && kept_view[m2] == sorted_view[i];
                assert(items[m2] == g);
            }
            if firsts.contains(g) {
                assert(items.contains(g));
                let m2 = choose|m2: int| 0 <= m2 < items.len() && items[m2] == g;
                assert(kept_view[m2].item == g);
                assert(kept_view.contains(kept_view[m2]));
                assert(kept_view.to_multiset().count(kept_view[m2]) > 0);
                assert(sorted_view.contains(kept_view[m2]));
                let i = choose|i: int| 0 <= i < sorted_view.len() && sorted_view[i] == kept_view[m2];
                assert(r@[i] == g);
            }
        }
        assert forall|i: int, j: int| 0 <= i < j < r@.len() implies r@[i].app_id != r@[j].app_id by {
            lemma_first_per_app(orig);
            assert(r@.contains(r@[i]));
            assert(r@.contains(r@[j]));
            assert(firsts.contains(r@[i]));
            assert(firsts.contains(r@[j]));
            let a = choose|a: int| 0 <= a < firsts.len() && firsts[a] == r@[i];
            let b = choose|b: int| 0 <= b < firsts.len() && firsts[b] == r@[j];
            assert(firsts == first_per_app(orig));
            if r@[i].app_id == r@[j].app_id {
                if a != b {
                    if a < b {
                        assert(firsts[a].app_id != firsts[b].app_id);
                    } else {
                        assert(firsts[b].app_id != firsts[a].app_id);
                    }
                }
                assert(r@[i] == r@[j]);
                crate::order::lemma_key_order(game_key(r@[i]), game_key(r@[j]), game_key(r@[i]));
            }
        }
    }
    r
}

} // verus!
