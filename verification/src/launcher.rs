//! Installed applications: the record kept per application, the rules that
//! decide which shortcuts become applications, the scan cache, and the
//! outcome of a launch request.

use vstd::prelude::*;
use crate::text::{
    chars_of, contains, has_substring, lowercased, same_chars, string_of, to_lower, trim_text, trimmed,
};

verus! {

/// Launcher errors.
#[derive(Debug)]
pub enum LauncherError {
    /// The shell refused to open the target; carries the code it returned.
    ShellExecuteFailed(isize),
}

/// One launchable application.
#[derive(Debug)]
pub struct AppInfo {
    pub name: String,
    pub path: String,
    /// Extra search names (such as the English `.lnk` file name), so that both
    /// the localised and the file name find the application.
    pub aliases: Vec<String>,
}

/// The plain content of an [`AppInfo`].
pub ghost struct AppInfoView {
    pub name: Seq<char>,
    pub path: Seq<char>,
    pub aliases: Seq<Seq<char>>,
}

impl View for AppInfo {
    type V = AppInfoView;

    open spec fn view(&self) -> AppInfoView {
        AppInfoView {
            name: self.name@,
            path: self.path@,
            aliases: self.aliases@.map_values(|a: String| a@),
        }
    }
}

impl Clone for AppInfo {
    fn clone(&self) -> (r: Self)
        ensures
            r@ == self@,
    {
        let r = AppInfo { name: self.name.clone(), path: self.path.clone(), aliases: self.aliases.clone() };
        assert(r.aliases@.map_values(|a: String| a@) =~= self.aliases@.map_values(|a: String| a@));
        r
    }
}

/// The words that mark a shortcut as no application (uninstallers, help,
/// web sites, documentation, licences).
pub open spec fn skip_patterns() -> Seq<Seq<char>> {
    seq![
        "uninstall"@,
        "卸载"@,
        "website"@,
        "网站"@,
        "帮助"@,
        "help"@,
        "readme"@,
        "文档"@,
        "manual"@,
        "license"@,
        "documentation"@,
    ]
}

/// A name is skipped when its lowercase form contains one of the
/// [`skip_patterns`].
pub open spec fn is_skipped(name: Seq<char>) -> bool {
    exists|i: int| 0 <= i < skip_patterns().len() && has_substring(lowercased(name), #[trigger] skip_patterns()[i])
}

/// Whether a shortcut name marks something that is not an application.
pub fn should_skip(name: &str) -> (r: bool)
    ensures
        r == is_skipped(name@),
{
    let lower = to_lower(name);
    let lower_chars = chars_of(lower.as_str());
    let patterns: Vec<&str> = vec![
        "uninstall",
        "卸载",
        "website",
        "网站",
        "帮助",
        "help",
        "readme",
        "文档",
        "manual",
        "license",
        "documentation",
    ];
    assert(patterns@.map_values(|p: &str| p@) =~= skip_patterns());
    let mut i: usize = 0;
    while i < patterns.len()
        invariant
            i <= patterns.len(),
            patterns@.map_values(|p: &str| p@) == skip_patterns(),
            lower_chars@ == lowercased(name@),
            forall|j: int| 0 <= j < i ==> !has_substring(lowercased(name@), #[trigger] skip_patterns()[j]),
        decreases patterns.len() - i,
    {
        let p = chars_of(patterns[i]);
        assert(p@ == skip_patterns()[i as int]);
        if contains(&lower_chars, &p) {
            return true;
        }
        i += 1;
    }
    false
}

/// Whether `s` equals `"lnk"` (the extension of shortcut files).
fn is_lnk(s: &str) -> (r: bool)
    ensures
        r == (s@ == "lnk"@),
{
    let a = chars_of(s);
    let b = chars_of("lnk");
    same_chars(&a, &b)
}

/// The stem a `.lnk` file contributes, if it may stand for an application:
/// the extension must be `lnk` in any case, and the trimmed file stem must be
/// non-empty and not [`is_skipped`].
pub open spec fn shortcut_stem(extension: Seq<char>, file_stem: Option<Seq<char>>) -> Option<Seq<char>> {
    if lowercased(extension) != "lnk"@ {
        None
    } else {
        match file_stem {
            None => None,
            Some(st) => {
                let t = trimmed(st);
                if t.len() == 0 || is_skipped(t) {
                    None
                } else {
                    Some(t)
                }
            },
        }
    }
}

/// Checks a directory entry's extension and file stem (see [`shortcut_stem`]).
pub fn accept_shortcut_stem(extension: &str, file_stem: Option<&str>) -> (r: Option<String>)
    ensures
        match r {
            Some(t) => shortcut_stem(extension@, option_view(file_stem)) == Some(t@),
            None => shortcut_stem(extension@, option_view(file_stem)) is None,
        },
{
    let ext = to_lower(extension);
    if !is_lnk(ext.as_str()) {
        return None;
    }
    match file_stem {
        None => None,
        Some(st) => {
            let t = trim_text(st);
            if t.as_str().is_empty() || should_skip(t.as_str()) {
                None
            } else {
                Some(t)
            }
        },
    }
}

/// The characters of an optional string.
pub open spec fn option_view(s: Option<&str>) -> Option<Seq<char>> {
    match s {
        Some(v) => Some(v@),
        None => None,
    }
}

/// The name and aliases of a shortcut with stem `stem` and shell display name
/// `display`. A non-empty (trimmed) display name that differs from the stem
/// becomes the name and the stem its alias; otherwise the display name (or,
/// without one, the stem) is the name, with no alias.
pub open spec fn shortcut_names(stem: Seq<char>, display: Option<Seq<char>>) -> (Seq<char>, Seq<Seq<char>>) {
    let d = match display {
        Some(v) => if trimmed(v).len() > 0 {
            Some(trimmed(v))
        } else {
            None
        },
        None => None,
    };
    match d {
        Some(dv) => if dv != stem {
            (dv, seq![stem])
        } else {
            (dv, seq![])
        },
        None => (stem, seq![]),
    }
}

/// The applications collected by a scan so far. A second application whose
/// name has the same lowercase form as an earlier one is dropped.
///
/// The names already taken are found by a linear search of the collected
/// applications rather than in a `HashSet<String>`: vstd states no model of
/// how `String` elements hash and compare inside a set, so membership in one
/// could not be proved; the list of applications already holds every name.
pub struct AppScan {
    apps: Vec<AppInfo>,
}

/// The plain content of a list of applications.
pub open spec fn apps_view(apps: Seq<AppInfo>) -> Seq<AppInfoView> {
    apps.map_values(|a: AppInfo| a@)
}

/// Some application in the list has a name whose lowercase form is `key`.
pub open spec fn name_taken(apps: Seq<AppInfoView>, key: Seq<char>) -> bool {
    exists|i: int| 0 <= i < apps.len() && lowercased(#[trigger] apps[i].name) == key
}

impl View for AppScan {
    type V = Seq<AppInfoView>;

    closed spec fn view(&self) -> Seq<AppInfoView> {
        apps_view(self.apps@)
    }
}

impl AppScan {
    /// An empty scan.
    pub fn new() -> (r: Self)
        ensures
            r@ == Seq::<AppInfoView>::empty(),
    {
        let r = AppScan { apps: Vec::new() };
        assert(r@ =~= Seq::<AppInfoView>::empty());
        r
    }

    /// The applications collected, in the order they were added.
    pub fn into_apps(self) -> (r: Vec<AppInfo>)
        ensures
            apps_view(r@) == self@,
    {
        self.apps
    }

    /// Whether the lowercase name `key` is taken.
    fn taken(&self, key: &Vec<char>) -> (r: bool)
        ensures
            r == name_taken(self@, key@),
    {
        let mut i: usize = 0;
        while i < self.apps.len()
            invariant
                i <= self.apps.len(),
                forall|j: int| 0 <= j < i ==> lowercased(#[trigger] self@[j].name) != key@,
            decreases self.apps.len() - i,
        {
            let lower = to_lower(self.apps[i].name.as_str());
            let lower_chars = chars_of(lower.as_str());
            if same_chars(&lower_chars, key) {
                assert(lowercased(self@[i as int].name) == key@);
                return true;
            }
            i += 1;
        }
        false
    }

    /// Adds an application unless its name is empty, skipped, or taken.
    fn add(&mut self, name: String, path: String, aliases: Vec<String>) -> (added: bool)
        ensures
            added == (name@.len() > 0 && !is_skipped(name@) && !name_taken(old(self)@, lowercased(name@))),
            added ==> final(self)@ == old(self)@.push(
                AppInfoView { name: name@, path: path@, aliases: aliases@.map_values(|a: String| a@) },
            ),
            !added ==> final(self)@ == old(self)@,
    {
        if name.as_str().is_empty() || should_skip(name.as_str()) {
            return false;
        }
        let key = to_lower(name.as_str());
        let key_chars = chars_of(key.as_str());
        if self.taken(&key_chars) {
            return false;
        }
        let ghost before = self@;
        let app = AppInfo { name, path, aliases };
        self.apps.push(app);
        assert(self@ =~= before.push(app@));
        true
    }
}

impl AppScan {
    /// Adds the application a `.lnk` shortcut stands for: `stem` is its
    /// accepted stem (see [`accept_shortcut_stem`]), `display` what the shell
    /// shows as its name. Names and aliases follow [`shortcut_names`]; the
    /// application is dropped when its name is skipped or already taken.
    pub fn add_shortcut(&mut self, path: String, stem: String, display: Option<&str>) -> (added: bool)
        ensures
            ({
                let (name, aliases) = shortcut_names(stem@, option_view(display));
                &&& added == (name.len() > 0 && !is_skipped(name) && !name_taken(old(self)@, lowercased(name)))
                &&& added ==> final(self)@ == old(self)@.push(AppInfoView { name, path: path@, aliases })
                &&& !added ==> final(self)@ == old(self)@
            }),
    {
        let d: Option<String> = match display {
            Some(v) => {
                let t = trim_text(v);
                if t.as_str().is_empty() {
                    None
                } else {
                    Some(t)
                }
            },
            None => None,
        };
        let ghost stem_v = stem@;
        let (name, aliases) = match d {
            Some(dv) => if !(dv == stem) {
                let mut a: Vec<String> = Vec::new();
                a.push(stem);
                (dv, a)
            } else {
                (dv, Vec::new())
            },
            None => (stem, Vec::new()),
        };
        let ghost expected = shortcut_names(stem_v, option_view(display));
        assert(aliases@.map_values(|a: String| a@) =~= expected.1);
        self.add(name, path, aliases)
    }

    /// Adds the application of a macOS bundle directory named `dir_name`: the
    /// name must end in `.app`; the application's name is `dir_name` without
    /// its trailing `.app` suffixes.
    pub fn add_bundle(&mut self, dir_name: &str, path: String) -> (added: bool)
        ensures
            !ends_with_app(dir_name@) ==> !added && final(self)@ == old(self)@,
            ends_with_app(dir_name@) ==> ({
                let name = without_app_suffix(dir_name@);
                &&& added == (name.len() > 0 && !is_skipped(name) && !name_taken(old(self)@, lowercased(name)))
                &&& added ==> final(self)@ == old(self)@.push(AppInfoView { name, path: path@, aliases: seq![] })
                &&& !added ==> final(self)@ == old(self)@
            }),
    {
        let chars = chars_of(dir_name);
        assert(chars@.take(chars.len() as int) =~= chars@);
        if !has_app_suffix(&chars, chars.len()) {
            return false;
        }
        let mut end = chars.len();
        assert(chars@.take(end as int) =~= chars@);
        while has_app_suffix(&chars, end)
            invariant
                end <= chars.len(),
                without_app_suffix(chars@.take(end as int)) == without_app_suffix(chars@),
            decreases end,
        {
            assert(chars@.take(end as int).take(end - 4) =~= chars@.take(end - 4));
            end = end - 4;
        }
        let mut stem: Vec<char> = Vec::new();
        let mut i: usize = 0;
        while i < end
            invariant
                end <= chars.len(),
                i <= end,
                stem@ == chars@.take(i as int),
            decreases end - i,
        {
            stem.push(chars[i]);
            i += 1;
            assert(stem@ =~= chars@.take(i as int));
        }
        let name = string_of(&stem);
        let none: Vec<String> = Vec::new();
        assert(none@.map_values(|a: String| a@) =~= Seq::<Seq<char>>::empty());
        self.add(name, path, none)
    }
}

/// The suffix of macOS application bundles.
pub open spec fn app_suffix() -> Seq<char> {
    seq!['.', 'a', 'p', 'p']
}

/// `s` ends with `.app`.
pub open spec fn ends_with_app(s: Seq<char>) -> bool {
    s.len() >= 4 && s.skip(s.len() - 4) == app_suffix()
}

/// `s` without all its trailing `.app` suffixes (`str::trim_end_matches(".app")`).
pub open spec fn without_app_suffix(s: Seq<char>) -> Seq<char>
    decreases s.len(),
{
    if ends_with_app(s) {
        without_app_suffix(s.take(s.len() - 4))
    } else {
        s
    }
}

/// Whether the first `end` characters of `chars` end with `.app`.
fn has_app_suffix(chars: &Vec<char>, end: usize) -> (r: bool)
    requires
        end <= chars.len(),
    ensures
        r == ends_with_app(chars@.take(end as int)),
{
    if end < 4 {
        return false;
    }
    let r = chars[end - 4] == '.' && chars[end - 3] == 'a' && chars[end - 2] == 'p' && chars[end - 1] == 'p';
    let ghost t = chars@.take(end as int).skip(end - 4);
    assert(r == (t == app_suffix())) by {
        if r {
            assert(t =~= app_suffix());
        } else if t == app_suffix() {
            assert(t[0] == '.' && t[1] == 'a' && t[2] == 'p' && t[3] == 'p');
        }
    }
    r
}

/// Returns the cached scan result, or runs `scan` once and caches a copy of
/// its result. The cache is filled by the first scan and never refreshed.
pub fn scan_cached<F: FnOnce() -> Vec<AppInfo>>(cache: &mut Option<Vec<AppInfo>>, scan: F) -> (r: Vec<AppInfo>)
    requires
        call_requires(scan, ()),
    ensures
        *old(cache) matches Some(c) ==> (apps_view(r@) == apps_view(c@) && *final(cache) == *old(cache)),
        *old(cache) is None ==> (call_ensures(scan, (), r) && (*final(cache) matches Some(c) && apps_view(
            c@,
        ) == apps_view(r@))),
{
    if let Some(cached) = cache {
        let r = cached.clone();
        assert(apps_view(r@) =~= apps_view(cached@));
        return r;
    }
    let apps = scan();
    let copy = apps.clone();
    assert(apps_view(copy@) =~= apps_view(apps@));
    *cache = Some(copy);
    apps
}

/// The outcome of asking the shell to open an application: the shell reports
/// success with a value above 32 (read as an unsigned number, so negative
/// values count as success); anything else is a failure carrying that value.
pub fn open_result(code: isize) -> (r: Result<(), LauncherError>)
    ensures
        (code < 0 || code > 32) ==> r is Ok,
        (0 <= code <= 32) ==> r == Err::<(), LauncherError>(LauncherError::ShellExecuteFailed(code)),
{
    if code < 0 || code > 32 {
        Ok(())
    } else {
        Err(LauncherError::ShellExecuteFailed(code))
    }
}

/// No two applications share the lowercase form of their names.
pub open spec fn names_distinct(apps: Seq<AppInfoView>) -> bool {
    forall|i: int, j: int|
        0 <= i < j < apps.len() ==> lowercased(#[trigger] apps[i].name) != lowercased(#[trigger] apps[j].name)
}

/// Every application of a scan has a non-empty name that is not skipped.
pub open spec fn names_acceptable(apps: Seq<AppInfoView>) -> bool {
    forall|i: int| 0 <= i < apps.len() ==> (#[trigger] apps[i]).name.len() > 0 && !is_skipped(apps[i].name)
}

/// A scan never holds two applications with the same lowercase name, nor one
/// with an empty or skipped name: adding keeps both properties.
pub proof fn lemma_add_keeps_names_distinct(apps: Seq<AppInfoView>, added: AppInfoView)
    requires
        names_distinct(apps),
        names_acceptable(apps),
        added.name.len() > 0,
        !is_skipped(added.name),
        !name_taken(apps, lowercased(added.name)),
    ensures
        names_distinct(apps.push(added)),
        names_acceptable(apps.push(added)),
{
    let r = apps.push(added);
    assert forall|i: int, j: int| 0 <= i < j < r.len() implies lowercased(#[trigger] r[i].name) != lowercased(
        #[trigger] r[j].name,
    ) by {
        if j == apps.len() {
            assert(r[i] == apps[i]);
            if lowercased(apps[i].name) == lowercased(added.name) {
                assert(name_taken(apps, lowercased(added.name)));
            }
        } else {
            assert(r[i] == apps[i] && r[j] == apps[j]);
        }
    }
    assert forall|i: int| 0 <= i < r.len() implies (#[trigger] r[i]).name.len() > 0 && !is_skipped(r[i].name) by {
        if i < apps.len() {
            assert(r[i] == apps[i]);
        }
    }
}

/// A shortcut name is skipped exactly when its lowercase form contains one of
/// the words "uninstall", "卸载", "website", "网站", "帮助", "help", "readme",
/// "文档", "manual", "license" or "documentation".
pub proof fn lemma_skip_words(name: Seq<char>)
    ensures
        is_skipped(name) <==> {
            let l = lowercased(name);
            ||| has_substring(l, "uninstall"@)
            ||| has_substring(l, "卸载"@)
            ||| has_substring(l, "website"@)
            ||| has_substring(l, "网站"@)
            ||| has_substring(l, "帮助"@)
            ||| has_substring(l, "help"@)
            ||| has_substring(l, "readme"@)
            ||| has_substring(l, "文档"@)
            ||| has_substring(l, "manual"@)
            ||| has_substring(l, "license"@)
            ||| has_substring(l, "documentation"@)
        },
{
    let l = lowercased(name);
    let ps = skip_patterns();
    if is_skipped(name) {
        let i = choose|i: int| 0 <= i < ps.len() && has_substring(l, #[trigger] ps[i]);
        assert(has_substring(l, ps[i]));
    }
    if has_substring(l, "uninstall"@) { assert(has_substring(l, ps[0])); }
    if has_substring(l, "卸载"@) { assert(has_substring(l, ps[1])); }
    if has_substring(l, "website"@) { assert(has_substring(l, ps[2])); }
    if has_substring(l, "网站"@) { assert(has_substring(l, ps[3])); }
    if has_substring(l, "帮助"@) { assert(has_substring(l, ps[4])); }
    if has_substring(l, "help"@) { assert(has_substring(l, ps[5])); }
    if has_substring(l, "readme"@) { assert(has_substring(l, ps[6])); }
    if has_substring(l, "文档"@) { assert(has_substring(l, ps[7])); }
    if has_substring(l, "manual"@) { assert(has_substring(l, ps[8])); }
    if has_substring(l, "license"@) { assert(has_substring(l, ps[9])); }
    if has_substring(l, "documentation"@) { assert(has_substring(l, ps[10])); }
}

} // verus!
