//! Application search: a pinyin index per name, a relevance score per name,
//! and the ranked list of the best matching applications.
//!
//! Every name is indexed three ways: lowercased as written, as full toneless
//! pinyin, and as the initials of its pinyin parts. A run of characters that
//! have no pinyin stays together as one part, so "WeChat微信" has the full
//! pinyin "wechatweixin" and the initials "wwx".

use vstd::prelude::*;
use pinyin::ToPinyin;
use crate::launcher::{AppInfo, AppInfoView};
use crate::text::{
    chars_of, contains, has_substring, is_prefix, lowercased, same_chars, starts_with, string_of,
    to_lower, trim_text, trimmed, is_blank, lemma_blank_trims_to_empty, lemma_trimmed_idempotent,
};

verus! {

/// The lowest relevance that is still shown: weaker matches are dropped.
pub const MIN_SCORE: i64 = 500;

/// The largest number of results a search returns.
pub const MAX_RESULTS: usize = 8;

/// The toneless pinyin that the `pinyin` crate gives for a character, or
/// `None` for a character it has no reading for.
pub uninterp spec fn pinyin_of(c: char) -> Option<Seq<char>>;

/// Calls `pinyin::ToPinyin::to_pinyin` on a character and, for a reading,
/// `Pinyin::plain`; the reading tables are only named here.
#[verifier::external_body]
fn char_pinyin(c: char) -> (r: Option<Vec<char>>)
    ensures
        match r {
            Some(v) => pinyin_of(c) == Some(v@),
            None => pinyin_of(c) is None,
        },
{
    match c.to_pinyin() {
        Some(p) => Some(p.plain().chars().collect()),
        None => None,
    }
}

/// A character that has a pinyin reading.
pub open spec fn is_hanzi(c: char) -> bool {
    pinyin_of(c) is Some
}

/// The readings of the characters of a name.
pub open spec fn readings_of(s: Seq<char>) -> Seq<Option<Seq<char>>> {
    s.map_values(|c: char| pinyin_of(c))
}

/// The parts of a name whose characters have the readings `rd` (one per
/// character): each character with a reading gives that reading, and each
/// maximal run of characters without one is a single part, unchanged.
pub open spec fn parts_with(s: Seq<char>, rd: Seq<Option<Seq<char>>>) -> Seq<Seq<char>>
    decreases s.len(),
{
    if s.len() == 0 {
        seq![]
    } else {
        let prev = parts_with(s.drop_last(), rd.drop_last());
        let c = s.last();
        match rd[s.len() - 1] {
            Some(p) => prev.push(p),
            None => if s.len() >= 2 && rd[s.len() - 2] is None {
                prev.drop_last().push(prev.last().push(c))
            } else {
                prev.push(seq![c])
            },
        }
    }
}

/// The pinyin parts of a name (see [`parts_with`]).
pub open spec fn pinyin_parts(s: Seq<char>) -> Seq<Seq<char>> {
    parts_with(s, readings_of(s))
}

/// All parts joined.
pub open spec fn concat_parts(ps: Seq<Seq<char>>) -> Seq<char>
    decreases ps.len(),
{
    if ps.len() == 0 {
        seq![]
    } else {
        concat_parts(ps.drop_last()) + ps.last()
    }
}

/// The first character of every non-empty part.
pub open spec fn first_letters(ps: Seq<Seq<char>>) -> Seq<char>
    decreases ps.len(),
{
    if ps.len() == 0 {
        seq![]
    } else if ps.last().len() > 0 {
        first_letters(ps.drop_last()).push(ps.last()[0])
    } else {
        first_letters(ps.drop_last())
    }
}

/// The three search keys of one name.
pub ghost struct NameKeys {
    pub lower: Seq<char>,
    pub pinyin_full: Seq<char>,
    pub initials: Seq<char>,
}

/// The keys of a raw name: its lowercase form, its lowercased full pinyin and
/// its lowercased initials.
pub open spec fn name_keys(raw: Seq<char>) -> NameKeys {
    NameKeys {
        lower: lowercased(raw),
        pinyin_full: lowercased(concat_parts(pinyin_parts(raw))),
        initials: lowercased(first_letters(pinyin_parts(raw))),
    }
}

/// The index of one searchable name (the main name or an alias).
pub struct IndexedName {
    pub lower: String,
    pub pinyin_full: String,
    pub initials: String,
}

impl View for IndexedName {
    type V = NameKeys;

    open spec fn view(&self) -> NameKeys {
        NameKeys { lower: self.lower@, pinyin_full: self.pinyin_full@, initials: self.initials@ }
    }
}

impl Clone for IndexedName {
    fn clone(&self) -> (r: Self)
        ensures
            r@ == self@,
    {
        IndexedName {
            lower: self.lower.clone(),
            pinyin_full: self.pinyin_full.clone(),
            initials: self.initials.clone(),
        }
    }
}

/// An application with the keys of all its names.
pub struct IndexedApp {
    /// The application itself (name, path, aliases).
    pub info: AppInfo,
    /// `names[0]` indexes the main name, the rest index the aliases in order.
    pub names: Vec<IndexedName>,
}

/// A search hit.
pub struct Match<'a> {
    pub app: &'a IndexedApp,
    pub score: i64,
}

/// The keys of every name of an application: the main name first, then the
/// aliases in order.
pub open spec fn app_keys(info: AppInfoView) -> Seq<NameKeys> {
    seq![name_keys(info.name)] + info.aliases.map_values(|a: Seq<char>| name_keys(a))
}

/// The keys held by a list of indexed names.
pub open spec fn names_view(ns: Seq<IndexedName>) -> Seq<NameKeys> {
    ns.map_values(|n: IndexedName| n@)
}

/// The parts of a vector of character vectors, as sequences.
pub open spec fn parts_view(ps: Seq<Vec<char>>) -> Seq<Seq<char>> {
    ps.map_values(|v: Vec<char>| v@)
}

/// The readings of a list of optional character vectors.
pub open spec fn readings_view(rd: Seq<Option<Vec<char>>>) -> Seq<Option<Seq<char>>> {
    rd.map_values(
        |r: Option<Vec<char>>|
            match r {
                Some(v) => Some(v@),
                None => None,
            },
    )
}

proof fn lemma_parts_step(s: Seq<char>, rd: Seq<Option<Seq<char>>>, i: int)
    requires
        0 <= i < s.len(),
        rd.len() == s.len(),
    ensures
        s.take(i + 1).drop_last() == s.take(i),
        rd.take(i + 1).drop_last() == rd.take(i),
        s.take(i + 1).last() == s[i],
        rd.take(i + 1)[i] == rd[i],
        i >= 1 ==> rd.take(i + 1)[i - 1] == rd[i - 1],
{
    assert(s.take(i + 1).drop_last() =~= s.take(i));
    assert(rd.take(i + 1).drop_last() =~= rd.take(i));
}

/// Splits a name into its parts, given the reading of each character (see
/// [`parts_with`]).
pub fn split_parts(chars: &Vec<char>, readings: &Vec<Option<Vec<char>>>) -> (r: Vec<Vec<char>>)
    requires
        readings.len() == chars.len(),
    ensures
        parts_view(r@) == parts_with(chars@, readings_view(readings@)),
{
    let ghost rd = readings_view(readings@);
    let mut parts: Vec<Vec<char>> = Vec::new();
    let mut i: usize = 0;
    while i < chars.len()
        invariant
            i <= chars.len(),
            readings.len() == chars.len(),
            rd == readings_view(readings@),
            parts_view(parts@) == parts_with(chars@.take(i as int), rd.take(i as int)),
            i < chars.len() && rd[i as int] is None ==> (i == 0 || rd[i - 1] is Some),
        decreases chars.len() - i,
    {
        let c = chars[i];
        match &readings[i] {
            Some(p) => {
                proof {
                    lemma_parts_step(chars@, rd, i as int);
                }
                let copy = p.clone();
                assert(copy@ =~= p@);
                let ghost pv = parts_view(parts@);
                parts.push(copy);
                assert(parts_view(parts@) =~= pv.push(p@));
                i += 1;
            },
            None => {
                let ghost start = i;
                proof {
                    lemma_parts_step(chars@, rd, i as int);
                }
                let mut block: Vec<char> = Vec::new();
                block.push(c);
                i += 1;
                assert(block@ =~= chars@.subrange(start as int, i as int));
                assert(parts_view(parts@).push(block@) == parts_with(chars@.take(i as int), rd.take(i as int)));
                loop
                    invariant_except_break
                        start < i <= chars.len(),
                        readings.len() == chars.len(),
                        rd == readings_view(readings@),
                        block@ == chars@.subrange(start as int, i as int),
                        forall|k: int| start <= k < i ==> (#[trigger] rd[k]) is None,
                        parts_view(parts@).push(block@) == parts_with(chars@.take(i as int), rd.take(i as int)),
                    ensures
                        start < i <= chars.len(),
                        i < chars.len() ==> rd[i as int] is Some,
                        parts_view(parts@).push(block@) == parts_with(chars@.take(i as int), rd.take(i as int)),
                    decreases chars.len() - i,
                {
                    if i >= chars.len() {
                        break;
                    }
                    if readings[i].is_some() {
                        break;
                    }
                    proof {
                        lemma_parts_step(chars@, rd, i as int);
                        let prev = parts_with(chars@.take(i as int), rd.take(i as int));
                        assert(prev.drop_last() =~= parts_view(parts@));
                        assert(prev.last() == block@);
                        assert(rd[i - 1] is None);
                    }
                    block.push(chars[i]);
                    i += 1;
                    assert(block@ =~= chars@.subrange(start as int, i as int));
                    assert(parts_view(parts@).push(block@) =~= parts_with(
                        chars@.take(i as int),
                        rd.take(i as int),
                    ));
                }
                let ghost pv = parts_view(parts@);
                parts.push(block);
                assert(parts_view(parts@) =~= pv.push(block@));
            },
        }
    }
    assert(chars@.take(chars.len() as int) =~= chars@);
    assert(rd.take(chars.len() as int) =~= rd);
    parts
}

/// Joins the parts (the full pinyin) and collects their first characters
/// (the initials).
pub fn join_parts(parts: &Vec<Vec<char>>) -> (r: (Vec<char>, Vec<char>))
    ensures
        r.0@ == concat_parts(parts_view(parts@)),
        r.1@ == first_letters(parts_view(parts@)),
{
    let ghost ps = parts_view(parts@);
    let mut full: Vec<char> = Vec::new();
    let mut firsts: Vec<char> = Vec::new();
    let mut k: usize = 0;
    while k < parts.len()
        invariant
            k <= parts.len(),
            ps == parts_view(parts@),
            full@ == concat_parts(ps.take(k as int)),
            firsts@ == first_letters(ps.take(k as int)),
        decreases parts.len() - k,
    {
        let part = &parts[k];
        assert(ps.take(k + 1).drop_last() =~= ps.take(k as int));
        assert(ps.take(k + 1).last() == part@);
        let ghost before = full@;
        let mut j: usize = 0;
        while j < part.len()
            invariant
                j <= part.len(),
                full@ == before + part@.take(j as int),
            decreases part.len() - j,
        {
            full.push(part[j]);
            j += 1;
            assert(full@ =~= before + part@.take(j as int));
        }
        assert(part@.take(part.len() as int) =~= part@);
        if part.len() > 0 {
            firsts.push(part[0]);
        }
        k += 1;
    }
    assert(ps.take(parts.len() as int) =~= ps);
    (full, firsts)
}

/// Builds the keys of one name.
pub fn index_name(raw: &str) -> (r: IndexedName)
    ensures
        r@ == name_keys(raw@),
{
    let chars = chars_of(raw);
    let mut readings: Vec<Option<Vec<char>>> = Vec::new();
    let mut i: usize = 0;
    while i < chars.len()
        invariant
            i <= chars.len(),
            readings_view(readings@) == readings_of(chars@).take(i as int),
        decreases chars.len() - i,
    {
        let ghost before = readings@;
        let p = char_pinyin(chars[i]);
        let ghost pv: Option<Seq<char>> = readings_view(seq![p])[0];
        assert(pv == pinyin_of(chars@[i as int]));
        readings.push(p);
        assert(readings@ == before.push(p));
        assert(readings_view(readings@) =~= readings_view(before).push(pv));
        assert(readings_of(chars@).take(i + 1) =~= readings_of(chars@).take(i as int).push(pv));
        i += 1;
    }
    assert(readings_of(chars@).take(chars.len() as int) =~= readings_of(chars@));
    let parts = split_parts(&chars, &readings);
    let (full, firsts) = join_parts(&parts);
    let full_s = string_of(&full);
    let firsts_s = string_of(&firsts);
    IndexedName {
        lower: to_lower(raw),
        pinyin_full: to_lower(full_s.as_str()),
        initials: to_lower(firsts_s.as_str()),
    }
}

/// Builds the keys of every name of one application: the main name, then
/// each alias in order.
fn index_app_names(a: &AppInfo) -> (r: Vec<IndexedName>)
    ensures
        names_view(r@) == app_keys(a@),
{
    let mut names: Vec<IndexedName> = Vec::new();
    names.push(index_name(a.name.as_str()));
    let ghost keys = app_keys(a@);
    let mut j: usize = 0;
    while j < a.aliases.len()
        invariant
            j <= a.aliases.len(),
            keys == app_keys(a@),
            names_view(names@) == keys.take(j + 1),
        decreases a.aliases.len() - j,
    {
        let n = index_name(a.aliases[j].as_str());
        let ghost nv = names_view(names@);
        names.push(n);
        assert(names_view(names@) =~= nv.push(n@));
        assert(keys.take(j + 2) =~= keys.take(j + 1).push(keys[j + 1]));
        j += 1;
    }
    assert(keys.take(a.aliases.len() + 1) =~= keys);
    names
}

/// Indexes a list of applications (main name and every alias of each).
pub fn index_apps(apps: Vec<AppInfo>) -> (r: Vec<IndexedApp>)
    ensures
        r.len() == apps.len(),
        forall|i: int|
            0 <= i < apps.len() ==> (#[trigger] r@[i]).info == apps@[i] && names_view(
                r@[i].names@,
            ) == app_keys(apps@[i]@),
{
    let ghost orig = apps@;
    let mut out: Vec<IndexedApp> = Vec::new();
    for a in it: apps.into_iter()
        invariant
            it.seq() == orig,
            out.len() == it.index(),
            forall|i: int|
                0 <= i < out.len() ==> (#[trigger] out@[i]).info == orig[i] && names_view(
                    out@[i].names@,
                ) == app_keys(orig[i]@),
    {
        let names = index_app_names(&a);
        out.push(IndexedApp { info: a, names });
    }
    out
}

/// The relevance of one name for the query `q`, or -1 when it does not
/// match. `short` (a one-character query) turns off the matches inside a key.
pub open spec fn score_keys(k: NameKeys, q: Seq<char>, short: bool) -> int {
    if k.lower == q {
        1000
    } else if is_prefix(q, k.lower) {
        900
    } else if k.initials == q {
        880
    } else if is_prefix(q, k.initials) {
        760
    } else if !short && has_substring(k.lower, q) {
        700
    } else if k.pinyin_full == q {
        680
    } else if is_prefix(q, k.pinyin_full) {
        600
    } else if !short && has_substring(k.initials, q) {
        560
    } else if !short && has_substring(k.pinyin_full, q) {
        500
    } else {
        -1
    }
}

/// The best relevance over a list of names (-1 for none).
pub open spec fn best_score(ks: Seq<NameKeys>, q: Seq<char>, short: bool) -> int
    decreases ks.len(),
{
    if ks.len() == 0 {
        -1
    } else {
        let prev = best_score(ks.drop_last(), q, short);
        let s = score_keys(ks.last(), q, short);
        if s > prev {
            s
        } else {
            prev
        }
    }
}

/// The normalised query: trimmed, then lowercased.
pub open spec fn query_key(query: Seq<char>) -> Seq<char> {
    lowercased(trimmed(query))
}

/// The length in bytes (UTF-8) of an application's main name, lowercased:
/// the tie-break between equal scores.
pub open spec fn main_name_len(app: IndexedApp) -> usize {
    vstd::utf8::encode_utf8(app.names@[0].lower@).len() as usize
}

/// The candidates of a search, in list order: `(index, best score, main name
/// length)` for every application whose best score reaches [`MIN_SCORE`].
pub open spec fn candidates(apps: Seq<IndexedApp>, q: Seq<char>, short: bool) -> Seq<
    (usize, i64, usize),
>
    decreases apps.len(),
{
    if apps.len() == 0 {
        seq![]
    } else {
        let prev = candidates(apps.drop_last(), q, short);
        let b = best_score(names_view(apps.last().names@), q, short);
        if b >= MIN_SCORE {
            prev.push(((apps.len() - 1) as usize, b as i64, main_name_len(apps.last())))
        } else {
            prev
        }
    }
}

/// The result order: higher score first, then the shorter main name, then the
/// earlier application in the list.
pub open spec fn ranks_before(a: (usize, i64, usize), b: (usize, i64, usize)) -> bool {
    a.1 > b.1 || (a.1 == b.1 && (a.2 < b.2 || (a.2 == b.2 && a.0 < b.0)))
}

/// Every element ranks before every later one.
pub open spec fn strictly_ranked(s: Seq<(usize, i64, usize)>) -> bool {
    forall|i: int, j: int| 0 <= i < j < s.len() ==> ranks_before(s[i], s[j])
}

/// `out` is the first `k` of the candidates `c` in result order: as many as
/// `k` allows, all taken from `c`, in order, and every candidate left out
/// ranks after all of them.
pub open spec fn is_top_ranking(c: Seq<(usize, i64, usize)>, out: Seq<(usize, i64, usize)>, k: nat) -> bool {
    &&& out.len() == (if c.len() < k { c.len() } else { k })
    &&& forall|i: int| 0 <= i < out.len() ==> c.contains(#[trigger] out[i])
    &&& strictly_ranked(out)
    &&& forall|x: (usize, i64, usize)|
        #![trigger c.contains(x), out.contains(x)]
        c.contains(x) && !out.contains(x) ==> forall|i: int|
            0 <= i < out.len() ==> ranks_before(#[trigger] out[i], x)
}

/// Scores one name against the normalised query.
pub fn score_name(n: &IndexedName, q: &Vec<char>, short: bool) -> (r: i64)
    ensures
        r == score_keys(n@, q@, short),
{
    let lower = chars_of(n.lower.as_str());
    let initials = chars_of(n.initials.as_str());
    let full = chars_of(n.pinyin_full.as_str());
    if same_chars(&lower, q) {
        return 1000;
    }
    if starts_with(&lower, q) {
        return 900;
    }
    if same_chars(&initials, q) {
        return 880;
    }
    if starts_with(&initials, q) {
        return 760;
    }
    if !short && contains(&lower, q) {
        return 700;
    }
    if same_chars(&full, q) {
        return 680;
    }
    if starts_with(&full, q) {
        return 600;
    }
    if !short && contains(&initials, q) {
        return 560;
    }
    if !short && contains(&full, q) {
        return 500;
    }
    -1
}

/// The best score over all names of an application.
fn best_app_score(app: &IndexedApp, q: &Vec<char>, short: bool) -> (r: i64)
    ensures
        r == best_score(names_view(app.names@), q@, short),
{
    let ghost ks = names_view(app.names@);
    let mut best: i64 = -1;
    let mut j: usize = 0;
    while j < app.names.len()
        invariant
            j <= app.names.len(),
            ks == names_view(app.names@),
            best == best_score(ks.take(j as int), q@, short),
        decreases app.names.len() - j,
    {
        let s = score_name(&app.names[j], q, short);
        assert(ks.take(j + 1).drop_last() =~= ks.take(j as int));
        if s > best {
            best = s;
        }
        j += 1;
    }
    assert(ks.take(app.names.len() as int) =~= ks);
    best
}

fn ranks_before_exec(a: (usize, i64, usize), b: (usize, i64, usize)) -> (r: bool)
    ensures
        r == ranks_before(a, b),
{
    a.1 > b.1 || (a.1 == b.1 && (a.2 < b.2 || (a.2 == b.2 && a.0 < b.0)))
}

/// Inserts `x` into a list kept in result order.
fn insert_ranked(sorted: &mut Vec<(usize, i64, usize)>, x: (usize, i64, usize))
    requires
        strictly_ranked(old(sorted)@),
        !old(sorted)@.contains(x),
    ensures
        strictly_ranked(final(sorted)@),
        final(sorted)@.len() == old(sorted)@.len() + 1,
        forall|y: (usize, i64, usize)|
            #[trigger] final(sorted)@.contains(y) <==> (old(sorted)@.contains(y) || y == x),
{
    let ghost s = sorted@;
    let mut p: usize = 0;
    while p < sorted.len() && !ranks_before_exec(x, sorted[p])
        invariant
            sorted@ == s,
            p <= sorted.len(),
            forall|i: int| 0 <= i < p ==> !ranks_before(x, #[trigger] s[i]),
        decreases sorted.len() - p,
    {
        p += 1;
    }
    sorted.insert(p, x);
    let ghost t = sorted@;
    assert(t == s.insert(p as int, x));
    assert forall|i: int, j: int| 0 <= i < j < t.len() implies ranks_before(t[i], t[j]) by {
        if j < p {
            assert(t[i] == s[i] && t[j] == s[j]);
        } else if j == p {
            assert(t[i] == s[i]);
            assert(s.contains(s[i]));
            assert(!ranks_before(x, s[i]));
        } else if i < p {
            assert(t[i] == s[i] && t[j] == s[j - 1]);
        } else if i == p {
            assert(t[j] == s[j - 1]);
            assert(ranks_before(x, s[p as int]));
            if j - 1 > p {
                assert(ranks_before(s[p as int], s[j - 1]));
            }
        } else {
            assert(t[i] == s[i - 1] && t[j] == s[j - 1]);
        }
    }
    assert forall|y: (usize, i64, usize)| #[trigger] t.contains(y) <==> (s.contains(y) || y == x) by {
        if t.contains(y) {
            let k = choose|k: int| 0 <= k < t.len() && t[k] == y;
            if k < p {
                assert(s[k] == y);
            } else if k > p {
                assert(s[k - 1] == y);
            }
        }
        if s.contains(y) {
            let k = choose|k: int| 0 <= k < s.len() && s[k] == y;
            if k < p {
                assert(t[k] == y);
            } else {
                assert(t[k + 1] == y);
            }
        }
        if y == x {
            assert(t[p as int] == y);
        }
    }
}

/// The ranked candidates for the normalised query `q`: the best
/// [`MAX_RESULTS`] applications in result order.
pub fn rank_apps(indexed: &[IndexedApp], q: &Vec<char>, short: bool) -> (r: Vec<(usize, i64, usize)>)
    ensures
        is_top_ranking(candidates(indexed@, q@, short), r@, MAX_RESULTS as nat),
{
    let ghost apps = indexed@;
    let mut cands: Vec<(usize, i64, usize)> = Vec::new();
    let mut i: usize = 0;
    while i < indexed.len()
        invariant
            i <= indexed.len(),
            apps == indexed@,
            cands@ == candidates(apps.take(i as int), q@, short),
            forall|a: int, b: int| 0 <= a < b < cands.len() ==> cands@[a].0 < cands@[b].0,
            forall|a: int| 0 <= a < cands.len() ==> cands@[a].0 < i,
        decreases indexed.len() - i,
    {
        let app = &indexed[i];
        assert(apps.take(i + 1).drop_last() =~= apps.take(i as int));
        let b = best_app_score(app, q, short);
        if b >= MIN_SCORE {
            let len = app.names[0].lower.as_str().len();
            cands.push((i, b, len));
        }
        i += 1;
    }
    assert(apps.take(indexed.len() as int) =~= apps);
    let ghost c = cands@;
    let mut sorted: Vec<(usize, i64, usize)> = Vec::new();
    let mut k: usize = 0;
    while k < cands.len()
        invariant
            k <= cands.len(),
            c == cands@,
            forall|a: int, b: int| 0 <= a < b < c.len() ==> c[a].0 < c[b].0,
            strictly_ranked(sorted@),
            sorted.len() == k,
            forall|y: (usize, i64, usize)|
                #[trigger] sorted@.contains(y) <==> c.take(k as int).contains(y),
        decreases cands.len() - k,
    {
        let x = cands[k];
        assert(!sorted@.contains(x)) by {
            let ghost ck = c.take(k as int);
            if ck.contains(x) {
                let a = choose|a: int| 0 <= a < ck.len() && ck[a] == x;
                assert(c[a].0 < c[k as int].0);
            }
        }
        let ghost before = sorted@;
        insert_ranked(&mut sorted, x);
        let ghost ck = c.take(k as int);
        let ghost ck1 = c.take(k + 1);
        assert(ck1 =~= ck.push(x));
        assert forall|y: (usize, i64, usize)| #[trigger] sorted@.contains(y) <==> ck1.contains(y) by {
            assert(before.contains(y) <==> ck.contains(y));
            assert(sorted@.contains(y) <==> (before.contains(y) || y == x));
            if y == x {
                assert(ck1[k as int] == x);
            }
            if ck1.contains(y) {
                let a = choose|a: int| 0 <= a < ck1.len() && ck1[a] == y;
                if a < k {
                    assert(ck[a] == y);
                }
            }
            if ck.contains(y) {
                let a = choose|a: int| 0 <= a < ck.len() && ck[a] == y;
                assert(ck1[a] == y);
            }
        }
        k += 1;
    }
    assert(c.take(c.len() as int) =~= c);
    let ghost full = sorted@;
    if sorted.len() > MAX_RESULTS {
        sorted.truncate(MAX_RESULTS);
    }
    let ghost out = sorted@;
    assert(out =~= full.take(out.len() as int));
    assert forall|x: (usize, i64, usize)|
        #![trigger c.contains(x), out.contains(x)]
        c.contains(x) && !out.contains(x) implies forall|i: int|
            0 <= i < out.len() ==> ranks_before(#[trigger] out[i], x) by {
        assert(full.contains(x));
        let a = choose|a: int| 0 <= a < full.len() && full[a] == x;
        if a < out.len() {
            assert(out[a] == x);
        }
        assert forall|i: int| 0 <= i < out.len() implies ranks_before(#[trigger] out[i], x) by {
            assert(out[i] == full[i]);
        }
    }
    assert forall|i: int| 0 <= i < out.len() implies c.contains(#[trigger] out[i]) by {
        assert(out[i] == full[i]);
        assert(full.contains(full[i]));
    }
    sorted
}

/// The hits `r` stand for the ranking `top` of `indexed`: the same length, and
/// hit `i` refers to application `top[i].0` with score `top[i].1`.
pub open spec fn hits_follow(indexed: Seq<IndexedApp>, top: Seq<(usize, i64, usize)>, r: Seq<Match>) -> bool {
    &&& r.len() == top.len()
    &&& forall|i: int|
        0 <= i < top.len() ==> *(#[trigger] r[i]).app == indexed[top[i].0 as int] && r[i].score
            == top[i].1
}

/// `top` is the ranking of `apps` for the normalised query `q`; a
/// one-character query is the short kind.
pub open spec fn ranks_query(apps: Seq<IndexedApp>, q: Seq<char>, top: Seq<(usize, i64, usize)>) -> bool {
    is_top_ranking(candidates(apps, q, q.len() == 1), top, MAX_RESULTS as nat)
}

/// Searches the applications and returns the best hits, most relevant first.
/// Each application is scored by the best of its main name and aliases; a
/// hit needs at least [`MIN_SCORE`]; equal scores go to the shorter main
/// name, then to the earlier application; at most [`MAX_RESULTS`] hits.
pub fn search<'a>(indexed: &'a [IndexedApp], query: &str) -> (r: Vec<Match<'a>>)
    ensures
        trimmed(query@).len() == 0 ==> r@.len() == 0,
        is_blank(query@) ==> r@.len() == 0,
        query_key(query@).len() == 0 ==> r@.len() == 0,
        r@.len() <= MAX_RESULTS,
        r@.len() <= 8,
        forall|i: int| 0 <= i < r@.len() ==> (#[trigger] r@[i]).score >= MIN_SCORE,
        forall|i: int| 0 <= i < r@.len() ==> 500 <= (#[trigger] r@[i]).score <= 1000,
        forall|i: int, j: int| 0 <= i < j < r@.len() ==> r@[i].score >= r@[j].score,
        trimmed(query@).len() > 0 && query_key(query@).len() > 0 ==> exists|top: Seq<
            (usize, i64, usize),
        >|
            #[trigger] ranks_query(indexed@, query_key(query@), top) && hits_follow(
                indexed@,
                top,
                r@,
            ),
{
    let t = trim_text(query);
    if t.as_str().is_empty() {
        proof {
            if is_blank(query@) {
                lemma_blank_trims_to_empty(query@);
            }
        }
        return Vec::new();
    }
    proof {
        if is_blank(query@) {
            lemma_blank_trims_to_empty(query@);
        }
    }
    let q_s = to_lower(t.as_str());
    let q = chars_of(q_s.as_str());
    if q.len() == 0 {
        return Vec::new();
    }
    let short = q.len() == 1;
    let top = rank_apps(indexed, &q, short);
    let ghost c = candidates(indexed@, q@, short);
    proof {
        lemma_candidate_indices(indexed@, q@, short);
    }
    let mut out: Vec<Match<'a>> = Vec::new();
    let mut t: usize = 0;
    while t < top.len()
        invariant
            t <= top.len(),
            is_top_ranking(c, top@, MAX_RESULTS as nat),
            c == candidates(indexed@, q@, short),
            forall|x: (usize, i64, usize)| c.contains(x) ==> x.0 < indexed@.len(),
            out.len() == t,
            forall|i: int|
                0 <= i < t ==> *(#[trigger] out@[i]).app == indexed@[top@[i].0 as int]
                    && out@[i].score == top@[i].1,
        decreases top.len() - t,
    {
        let (idx, score, _len) = top[t];
        assert(c.contains(top@[t as int]));
        out.push(Match { app: &indexed[idx], score });
        t += 1;
    }
    assert(hits_follow(indexed@, top@, out@));
    assert(ranks_query(indexed@, q@, top@));
    assert(indexed@.len() == indexed.len());
    proof {
        lemma_hits_are_best_scores(indexed@, q@, top@);
        assert forall|i: int| 0 <= i < out@.len() implies (#[trigger] out@[i]).score >= MIN_SCORE
            && out@[i].score <= 1000 by {
            assert(out@[i].score == top@[i].1);
            lemma_best_score_range(names_view(indexed@[top@[i].0 as int].names@), q@, q@.len() == 1);
        }
        assert forall|i: int, j: int| 0 <= i < j < out@.len() implies out@[i].score >= out@[j].score by {
            assert(out@[i].score == top@[i].1 && out@[j].score == top@[j].1);
        }
    }
    out
}

/// Every candidate names an application of the list.
proof fn lemma_candidate_indices(apps: Seq<IndexedApp>, q: Seq<char>, short: bool)
    ensures
        forall|x: (usize, i64, usize)|
            #[trigger] candidates(apps, q, short).contains(x) ==> x.0 < apps.len(),
    decreases apps.len(),
{
    if apps.len() > 0 {
        lemma_candidate_indices(apps.drop_last(), q, short);
        let prev = candidates(apps.drop_last(), q, short);
        let c = candidates(apps, q, short);
        assert forall|x: (usize, i64, usize)| #[trigger] c.contains(x) implies x.0 < apps.len() by {
            let k = choose|k: int| 0 <= k < c.len() && c[k] == x;
            if k < prev.len() {
                assert(prev.contains(prev[k]));
            }
        }
    }
}

/// What a candidate says of its application: its index lies in the list,
/// its score is the application's best score and reaches [`MIN_SCORE`], and its
/// length is the main name's.
pub proof fn lemma_candidate_facts(apps: Seq<IndexedApp>, q: Seq<char>, short: bool)
    requires
        apps.len() <= usize::MAX,
    ensures
        forall|x: (usize, i64, usize)|
            #[trigger] candidates(apps, q, short).contains(x) ==> {
                &&& x.0 < apps.len()
                &&& x.1 == best_score(names_view(apps[x.0 as int].names@), q, short)
                &&& x.1 >= MIN_SCORE
                &&& x.2 == main_name_len(apps[x.0 as int])
            },
    decreases apps.len(),
{
    if apps.len() > 0 {
        let prev_apps = apps.drop_last();
        lemma_candidate_facts(prev_apps, q, short);
        let prev = candidates(prev_apps, q, short);
        let c = candidates(apps, q, short);
        assert forall|x: (usize, i64, usize)| #[trigger] c.contains(x) implies {
            &&& x.0 < apps.len()
            &&& x.1 == best_score(names_view(apps[x.0 as int].names@), q, short)
            &&& x.1 >= MIN_SCORE
            &&& x.2 == main_name_len(apps[x.0 as int])
        } by {
            let k = choose|k: int| 0 <= k < c.len() && c[k] == x;
            if k < prev.len() {
                assert(prev.contains(prev[k]));
                assert(prev_apps[x.0 as int] == apps[x.0 as int]);
            } else {
                let b = best_score(names_view(apps.last().names@), q, short);
                assert(-1 <= b <= 1000) by {
                    lemma_best_score_range(names_view(apps.last().names@), q, short);
                }
            }
        }
    }
}

/// The best score over names is -1 or the score of one of them, is at least
/// the score of each, and lies between -1 and 1000.
pub proof fn lemma_best_score_range(ks: Seq<NameKeys>, q: Seq<char>, short: bool)
    ensures
        -1 <= best_score(ks, q, short) <= 1000,
        forall|i: int| 0 <= i < ks.len() ==> best_score(ks, q, short) >= score_keys(#[trigger] ks[i], q, short),
        best_score(ks, q, short) == -1 || exists|i: int|
            0 <= i < ks.len() && best_score(ks, q, short) == score_keys(#[trigger] ks[i], q, short),
    decreases ks.len(),
{
    if ks.len() > 0 {
        let prev = ks.drop_last();
        lemma_best_score_range(prev, q, short);
        assert forall|i: int| 0 <= i < ks.len() implies best_score(ks, q, short) >= score_keys(
            #[trigger] ks[i],
            q,
            short,
        ) by {
            if i < ks.len() - 1 {
                assert(prev[i] == ks[i]);
            }
        }
        if best_score(ks, q, short) != -1 {
            if best_score(ks, q, short) == score_keys(ks.last(), q, short) {
                assert(ks[ks.len() - 1] == ks.last());
            } else {
                let i = choose|i: int| 0 <= i < prev.len() && best_score(prev, q, short) == score_keys(#[trigger] prev[i], q, short);
                assert(prev[i] == ks[i]);
            }
        }
    }
}

/// Every hit of a search meets the lowest score shown, carries the best
/// score of its application over the main name and all aliases, and there
/// are at most [`MAX_RESULTS`] hits, ordered by non-increasing score.
pub proof fn lemma_hits_are_best_scores(apps: Seq<IndexedApp>, q: Seq<char>, top: Seq<(usize, i64, usize)>)
    requires
        apps.len() <= usize::MAX,
        ranks_query(apps, q, top),
    ensures
        top.len() <= MAX_RESULTS,
        forall|i: int|
            0 <= i < top.len() ==> {
                &&& (#[trigger] top[i]).0 < apps.len()
                &&& top[i].1 >= MIN_SCORE
                &&& top[i].1 == best_score(names_view(apps[top[i].0 as int].names@), q, q.len() == 1)
            },
        forall|i: int, j: int| 0 <= i < j < top.len() ==> top[i].1 >= top[j].1,
{
    lemma_candidate_facts(apps, q, q.len() == 1);
    let c = candidates(apps, q, q.len() == 1);
    assert forall|i: int| 0 <= i < top.len() implies {
        &&& (#[trigger] top[i]).0 < apps.len()
        &&& top[i].1 >= MIN_SCORE
        &&& top[i].1 == best_score(names_view(apps[top[i].0 as int].names@), q, q.len() == 1)
    } by {
        assert(c.contains(top[i]));
    }
    assert forall|i: int, j: int| 0 <= i < j < top.len() implies top[i].1 >= top[j].1 by {
        assert(ranks_before(top[i], top[j]));
    }
}

/// An application passed over by a search ranks after every hit: it either
/// misses [`MIN_SCORE`] or loses to all hits in the result order.
pub proof fn lemma_omitted_rank_lower(
    apps: Seq<IndexedApp>,
    q: Seq<char>,
    top: Seq<(usize, i64, usize)>,
    x: (usize, i64, usize),
)
    requires
        ranks_query(apps, q, top),
        candidates(apps, q, q.len() == 1).contains(x),
        !top.contains(x),
    ensures
        forall|i: int| 0 <= i < top.len() ==> ranks_before(#[trigger] top[i], x),
{
}

/// Two distinct entries are ordered one way or the other.
pub proof fn lemma_ranks_before_total(a: (usize, i64, usize), b: (usize, i64, usize))
    ensures
        a != b ==> (ranks_before(a, b) || ranks_before(b, a)),
        !(ranks_before(a, b) && ranks_before(b, a)),
{
}

proof fn lemma_ranking_prefix(
    c: Seq<(usize, i64, usize)>,
    a: Seq<(usize, i64, usize)>,
    b: Seq<(usize, i64, usize)>,
    k: nat,
    n: int,
)
    requires
        is_top_ranking(c, a, k),
        is_top_ranking(c, b, k),
        0 <= n <= a.len(),
    ensures
        forall|i: int| 0 <= i < n ==> a[i] == b[i],
    decreases n,
{
    if n > 0 {
        lemma_ranking_prefix(c, a, b, k, n - 1);
        let i = n - 1;
        if a[i] != b[i] {
            lemma_ranks_before_total(a[i], b[i]);
            if ranks_before(a[i], b[i]) {
                lemma_not_in_other(c, a, b, k, i);
            } else {
                lemma_not_in_other(c, b, a, k, i);
            }
        }
    }
}

/// Helper for uniqueness: if `a` and `b` agree before `i`, then `a[i]` does
/// not rank before `b[i]`.
proof fn lemma_not_in_other(
    c: Seq<(usize, i64, usize)>,
    a: Seq<(usize, i64, usize)>,
    b: Seq<(usize, i64, usize)>,
    k: nat,
    i: int,
)
    requires
        is_top_ranking(c, a, k),
        is_top_ranking(c, b, k),
        0 <= i < a.len(),
        forall|j: int| 0 <= j < i ==> a[j] == b[j],
    ensures
        !ranks_before(a[i], b[i]),
{
    assert(c.contains(a[i]));
    if !ranks_before(a[i], b[i]) {
        return;
    }
    if b.contains(a[i]) {
        let m = choose|m: int| 0 <= m < b.len() && b[m] == a[i];
        if m < i {
            assert(ranks_before(a[m], a[i]));
        } else if m > i {
            assert(ranks_before(b[i], b[m]));
        }
    } else {
        assert(ranks_before(b[i], a[i]));
    }
}

/// The ranking a search reports is determined by its candidates: two
/// rankings of the same candidates are equal.
pub proof fn lemma_ranking_unique(
    c: Seq<(usize, i64, usize)>,
    a: Seq<(usize, i64, usize)>,
    b: Seq<(usize, i64, usize)>,
    k: nat,
)
    requires
        is_top_ranking(c, a, k),
        is_top_ranking(c, b, k),
    ensures
        a == b,
{
    lemma_ranking_prefix(c, a, b, k, a.len() as int);
    assert(a =~= b);
}

/// A search depends on its query only through the normalised query: for two
/// queries with the same trimmed, lowercased form, hit lists that follow a
/// ranking of the same applications are the same hits in the same order.
pub proof fn lemma_same_key_same_hits<'a>(
    indexed: Seq<IndexedApp>,
    q1: Seq<char>,
    q2: Seq<char>,
    t1: Seq<(usize, i64, usize)>,
    t2: Seq<(usize, i64, usize)>,
    r1: Seq<Match<'a>>,
    r2: Seq<Match<'a>>,
)
    requires
        query_key(q1) == query_key(q2),
        ranks_query(indexed, query_key(q1), t1),
        hits_follow(indexed, t1, r1),
        ranks_query(indexed, query_key(q2), t2),
        hits_follow(indexed, t2, r2),
    ensures
        r1 == r2,
{
    let k = query_key(q1);
    lemma_ranking_unique(candidates(indexed, k, k.len() == 1), t1, t2, MAX_RESULTS as nat);
    assert forall|i: int| 0 <= i < r1.len() implies r1[i] == r2[i] by {
        assert(*r1[i].app == indexed[t1[i].0 as int]);
        assert(*r2[i].app == indexed[t2[i].0 as int]);
    }
    assert(r1 =~= r2);
}

/// Trimming a query before searching changes nothing: the trimmed query has
/// the same trimmed form, hence the same normalised query.
pub proof fn lemma_trimmed_query_same_key(q: Seq<char>)
    ensures
        trimmed(trimmed(q)) == trimmed(q),
        query_key(trimmed(q)) == query_key(q),
{
    lemma_trimmed_idempotent(q);
}

/// A one-character query only matches whole keys and key prefixes: it never
/// scores one of the matches inside a key (700, 560, 500).
pub proof fn lemma_short_query_no_inner_match(k: NameKeys, q: Seq<char>)
    ensures
        score_keys(k, q, true) == 1000 || score_keys(k, q, true) == 900 || score_keys(k, q, true)
            == 880 || score_keys(k, q, true) == 760 || score_keys(k, q, true) == 680 || score_keys(
            k,
            q,
            true,
        ) == 600 || score_keys(k, q, true) == -1,
{
}

/// Among hits with the same score, the application whose lowercase main name
/// is shorter in UTF-8 bytes comes first.
pub proof fn lemma_equal_scores_shorter_name_first<'a>(
    indexed: Seq<IndexedApp>,
    q: Seq<char>,
    top: Seq<(usize, i64, usize)>,
    r: Seq<Match<'a>>,
)
    requires
        indexed.len() <= usize::MAX,
        forall|a: int|
            0 <= a < indexed.len() ==> vstd::utf8::encode_utf8(
                (#[trigger] indexed[a]).names@[0].lower@,
            ).len() <= usize::MAX,
        ranks_query(indexed, q, top),
        hits_follow(indexed, top, r),
    ensures
        forall|i: int, j: int|
            0 <= i < j < r.len() && r[i].score == r[j].score ==> vstd::utf8::encode_utf8(
                (#[trigger] r[i]).app.names@[0].lower@,
            ).len() <= vstd::utf8::encode_utf8((#[trigger] r[j]).app.names@[0].lower@).len(),
{
    lemma_candidate_facts(indexed, q, q.len() == 1);
    let c = candidates(indexed, q, q.len() == 1);
    assert forall|i: int, j: int| 0 <= i < j < r.len() && r[i].score == r[j].score implies vstd::utf8::encode_utf8(
        (#[trigger] r[i]).app.names@[0].lower@,
    ).len() <= vstd::utf8::encode_utf8((#[trigger] r[j]).app.names@[0].lower@).len() by {
        assert(c.contains(top[i]) && c.contains(top[j]));
        assert(ranks_before(top[i], top[j]));
        assert(*r[i].app == indexed[top[i].0 as int]);
        assert(*r[j].app == indexed[top[j].0 as int]);
    }
}

/// A one-character query loses only the matches inside a key: whenever the
/// full query kinds would not score a match inside the lowercase name, the
/// initials or the full pinyin (700, 560, 500), the short kind scores the same,
/// and it never scores more.
pub proof fn lemma_short_only_drops_inner_matches(k: NameKeys, q: Seq<char>)
    ensures
        !(score_keys(k, q, false) == 700 || score_keys(k, q, false) == 560 || score_keys(k, q, false)
            == 500) ==> score_keys(k, q, true) == score_keys(k, q, false),
        score_keys(k, q, true) <= score_keys(k, q, false),
{
}

/// What each kind of match is worth at least, for either kind of query: the
/// lowercase name equal to the query 1000, starting with it 900, the initials
/// equal to it 880, starting with it 760, the full pinyin equal to it 680,
/// starting with it 600; for a longer query, the query inside the lowercase
/// name 700, inside the initials 560, inside the full pinyin 500. Below 500
/// there is no match at all.
pub proof fn lemma_match_kinds_score(k: NameKeys, q: Seq<char>, short: bool)
    ensures
        k.lower == q ==> score_keys(k, q, short) == 1000,
        is_prefix(q, k.lower) ==> score_keys(k, q, short) >= 900,
        k.initials == q ==> score_keys(k, q, short) >= 880,
        is_prefix(q, k.initials) ==> score_keys(k, q, short) >= 760,
        k.pinyin_full == q ==> score_keys(k, q, short) >= 680,
        is_prefix(q, k.pinyin_full) ==> score_keys(k, q, short) >= 600,
        !short && has_substring(k.lower, q) ==> score_keys(k, q, short) >= 700,
        !short && has_substring(k.initials, q) ==> score_keys(k, q, short) >= 560,
        !short && has_substring(k.pinyin_full, q) ==> score_keys(k, q, short) >= 500,
        score_keys(k, q, short) >= 500 || score_keys(k, q, short) == -1,
        score_keys(k, q, short) >= 500 ==> k.lower == q || is_prefix(q, k.lower) || is_prefix(q, k.initials) || is_prefix(
            q,
            k.pinyin_full,
        ) || k.initials == q || k.pinyin_full == q || (!short && (has_substring(k.lower, q)
            || has_substring(k.initials, q) || has_substring(k.pinyin_full, q))),
{
}

/// An application is found by a one-character query that starts the
/// initials (or the full pinyin) of its main name or of an alias: its best
/// score is at least 760 (or 600), so it is a candidate of the search.
pub proof fn lemma_short_prefix_query_hits(info: AppInfoView, q: Seq<char>, j: int)
    requires
        q.len() == 1,
        -1 <= j < info.aliases.len(),
        is_prefix(q, name_keys(if j < 0 { info.name } else { info.aliases[j] }).initials) || is_prefix(
            q,
            name_keys(if j < 0 { info.name } else { info.aliases[j] }).pinyin_full,
        ),
    ensures
        best_score(app_keys(info), q, true) >= MIN_SCORE,
        is_prefix(q, name_keys(if j < 0 { info.name } else { info.aliases[j] }).initials) ==> best_score(
            app_keys(info),
            q,
            true,
        ) >= 760,
{
    let ks = app_keys(info);
    lemma_best_score_range(ks, q, true);
    let n = if j < 0 { info.name } else { info.aliases[j] };
    lemma_match_kinds_score(name_keys(n), q, true);
    if j < 0 {
        assert(ks[0] == name_keys(info.name));
    } else {
        assert(ks[j + 1] == name_keys(info.aliases[j]));
    }
}

/// The full pinyin is all the parts, in order, one after another.
pub proof fn lemma_full_pinyin_joins_parts(ps: Seq<Seq<char>>)
    ensures
        concat_parts(ps) == ps.flatten(),
    decreases ps.len(),
{
    if ps.len() > 0 {
        lemma_full_pinyin_joins_parts(ps.drop_last());
        ps.lemma_flatten_and_flatten_alt_are_equivalent();
        ps.drop_last().lemma_flatten_and_flatten_alt_are_equivalent();
    }
}

/// The first letters are one per non-empty part: the first character of
/// each non-empty part, in order.
pub proof fn lemma_initials_one_per_part(ps: Seq<Seq<char>>)
    ensures
        first_letters(ps) == ps.filter(|p: Seq<char>| p.len() > 0).map_values(|p: Seq<char>| p[0]),
        first_letters(ps).len() == ps.filter(|p: Seq<char>| p.len() > 0).len(),
        forall|j: int|
            0 <= j < first_letters(ps).len() ==> #[trigger] first_letters(ps)[j] == ps.filter(
                |p: Seq<char>| p.len() > 0,
            )[j][0],
    decreases ps.len(),
{
    reveal(Seq::filter);
    if ps.len() > 0 {
        lemma_initials_one_per_part(ps.drop_last());
        assert(first_letters(ps) =~= ps.filter(|p: Seq<char>| p.len() > 0).map_values(|p: Seq<char>| p[0]));
    }
}

/// A name made only of characters with non-empty readings has one initial per
/// character: the first letter of its reading.
pub proof fn lemma_all_hanzi_initials(s: Seq<char>)
    requires
        forall|i: int| 0 <= i < s.len() ==> ((#[trigger] pinyin_of(s[i])) matches Some(p) && p.len() > 0),
    ensures
        first_letters(pinyin_parts(s)).len() == s.len(),
        forall|i: int|
            0 <= i < s.len() ==> #[trigger] first_letters(pinyin_parts(s))[i] == pinyin_of(s[i])->0[0],
{
    assert forall|i: int| 0 <= i < s.len() implies is_hanzi(#[trigger] s[i]) by {
        assert(pinyin_of(s[i]) is Some);
    }
    lemma_name_all_hanzi(s);
    let ps = pinyin_parts(s);
    lemma_initials_one_per_part(ps);
    let f = ps.filter(|p: Seq<char>| p.len() > 0);
    assert(f =~= ps) by {
        assert forall|i: int| 0 <= i < ps.len() implies (#[trigger] ps[i]).len() > 0 by {
            assert(Some(ps[i]) == pinyin_of(s[i]));
        }
        lemma_filter_keeps_all(ps);
    }
    assert forall|i: int| 0 <= i < s.len() implies #[trigger] first_letters(ps)[i] == pinyin_of(s[i])->0[0] by {
        assert(Some(ps[i]) == pinyin_of(s[i]));
    }
}

/// Keeping the non-empty parts of parts that are all non-empty keeps them all.
proof fn lemma_filter_keeps_all(ps: Seq<Seq<char>>)
    requires
        forall|i: int| 0 <= i < ps.len() ==> (#[trigger] ps[i]).len() > 0,
    ensures
        ps.filter(|p: Seq<char>| p.len() > 0) == ps,
    decreases ps.len(),
{
    reveal(Seq::filter);
    if ps.len() > 0 {
        let init = ps.drop_last();
        assert forall|i: int| 0 <= i < init.len() implies (#[trigger] init[i]).len() > 0 by {
            assert(init[i] == ps[i]);
        }
        lemma_filter_keeps_all(init);
        assert(ps.last().len() > 0);
        assert(init.push(ps.last()) =~= ps);
    }
}

/// A name equal to the query beats everything: the application scores 1000.
pub proof fn lemma_exact_name_scores_top(ks: Seq<NameKeys>, q: Seq<char>, short: bool, i: int)
    requires
        0 <= i < ks.len(),
        ks[i].lower == q,
    ensures
        best_score(ks, q, short) == 1000,
{
    lemma_best_score_range(ks, q, short);
    assert(score_keys(ks[i], q, short) == 1000);
}

/// An alias counts like the main name: an application scores at least what
/// any of its names scores.
pub proof fn lemma_every_name_counts(info: AppInfoView, q: Seq<char>, short: bool, j: int)
    requires
        0 <= j < info.aliases.len(),
    ensures
        best_score(app_keys(info), q, short) >= score_keys(name_keys(info.aliases[j]), q, short),
        best_score(app_keys(info), q, short) >= score_keys(name_keys(info.name), q, short),
{
    let ks = app_keys(info);
    lemma_best_score_range(ks, q, short);
    assert(ks[j + 1] == name_keys(info.aliases[j]));
    assert(ks[0] == name_keys(info.name));
}

proof fn lemma_parts_no_readings(s: Seq<char>, rd: Seq<Option<Seq<char>>>)
    requires
        s.len() > 0,
        rd.len() == s.len(),
        forall|i: int| 0 <= i < rd.len() ==> (#[trigger] rd[i]) is None,
    ensures
        parts_with(s, rd) == seq![s],
    decreases s.len(),
{
    if s.len() == 1 {
        assert(s.drop_last() =~= Seq::<char>::empty());
        assert(parts_with(s.drop_last(), rd.drop_last()) == Seq::<Seq<char>>::empty());
        assert(seq![s.last()] =~= s);
        assert(parts_with(s, rd) =~= seq![s]);
    } else {
        let p = s.drop_last();
        let prd = rd.drop_last();
        assert forall|i: int| 0 <= i < prd.len() implies (#[trigger] prd[i]) is None by {
            assert(prd[i] == rd[i]);
        }
        lemma_parts_no_readings(p, prd);
        assert(p.push(s.last()) =~= s);
        assert(rd[s.len() - 2] is None);
        assert(rd[s.len() - 1] is None);
        let prev = parts_with(p, prd);
        assert(parts_with(s, rd) == prev.drop_last().push(prev.last().push(s.last())));
        assert(prev.drop_last() =~= Seq::<Seq<char>>::empty());
        assert(parts_with(s, rd) =~= seq![s]);
    }
}

/// A name without any character that has a reading is a single part, kept
/// as written: its full pinyin is the whole name and its initials its first
/// character (both lowercased).
pub proof fn lemma_name_without_hanzi(s: Seq<char>)
    requires
        s.len() > 0,
        forall|i: int| 0 <= i < s.len() ==> !is_hanzi(#[trigger] s[i]),
    ensures
        pinyin_parts(s) == seq![s],
        name_keys(s).pinyin_full == lowercased(s),
        name_keys(s).initials == lowercased(seq![s[0]]),
{
    let rd = readings_of(s);
    assert forall|i: int| 0 <= i < rd.len() implies (#[trigger] rd[i]) is None by {
        assert(!is_hanzi(s[i]));
    }
    lemma_parts_no_readings(s, rd);
    let one = seq![s];
    assert(one.drop_last() =~= Seq::<Seq<char>>::empty());
    assert(concat_parts(Seq::<Seq<char>>::empty()) == Seq::<char>::empty());
    assert(first_letters(Seq::<Seq<char>>::empty()) == Seq::<char>::empty());
    assert(concat_parts(one) == concat_parts(one.drop_last()) + one.last());
    assert(concat_parts(one) =~= s);
    assert(first_letters(one) == first_letters(one.drop_last()).push(one.last()[0]));
    assert(first_letters(one) =~= seq![s[0]]);
}

proof fn lemma_parts_all_readings(s: Seq<char>, rd: Seq<Option<Seq<char>>>)
    requires
        rd.len() == s.len(),
        forall|i: int| 0 <= i < rd.len() ==> (#[trigger] rd[i]) is Some,
    ensures
        parts_with(s, rd).len() == s.len(),
        forall|i: int| 0 <= i < s.len() ==> Some(#[trigger] parts_with(s, rd)[i]) == rd[i],
    decreases s.len(),
{
    if s.len() > 0 {
        let p = s.drop_last();
        let prd = rd.drop_last();
        assert forall|i: int| 0 <= i < prd.len() implies (#[trigger] prd[i]) is Some by {
            assert(prd[i] == rd[i]);
        }
        lemma_parts_all_readings(p, prd);
        assert(rd[s.len() - 1] is Some);
        assert forall|i: int| 0 <= i < s.len() implies Some(#[trigger] parts_with(s, rd)[i]) == rd[i] by {
            if i < s.len() - 1 {
                assert(prd[i] == rd[i]);
            }
        }
    }
}

/// A name made only of characters with readings has one part per character:
/// its pinyin.
pub proof fn lemma_name_all_hanzi(s: Seq<char>)
    requires
        forall|i: int| 0 <= i < s.len() ==> is_hanzi(#[trigger] s[i]),
    ensures
        pinyin_parts(s).len() == s.len(),
        forall|i: int| 0 <= i < s.len() ==> Some(#[trigger] pinyin_parts(s)[i]) == pinyin_of(s[i]),
{
    let rd = readings_of(s);
    assert forall|i: int| 0 <= i < rd.len() implies (#[trigger] rd[i]) is Some by {
        assert(is_hanzi(s[i]));
    }
    lemma_parts_all_readings(s, rd);
    assert forall|i: int| 0 <= i < s.len() implies Some(#[trigger] pinyin_parts(s)[i]) == pinyin_of(s[i]) by {
        assert(rd[i] == pinyin_of(s[i]));
    }
}

} // verus!
