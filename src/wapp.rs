//! The signature catalog, the signal matcher, version inference and the
//! detection of every technology of the catalog on one page.
use vstd::prelude::*;
use vstd::string::*;
use std::collections::HashMap;
use crate::WappError;
use crate::pattern::{check_text, version_in, text_matches, pattern_version, opt_chars, regex_compiles, matchable};

verus! {

/// A very simple representation for cookie data
#[derive(Debug, PartialEq)]
pub struct Cookie {
    pub name: String,
    pub value: String,
}

/// The signals read off one page. Headers are keyed by their lower-case
/// name; where a key occurs twice, its first entry counts.
#[derive(Debug)]
pub struct RawData {
    pub headers: Vec<(String, String)>,
    pub cookies: Vec<Cookie>,
    pub meta_tags: Vec<(String, String)>,
    pub script_tags: Vec<String>,
    pub html: String,
}

pub ghost struct RawDataView {
    pub headers: Seq<(Seq<char>, Seq<char>)>,
    pub cookies: Seq<(Seq<char>, Seq<char>)>,
    pub meta_tags: Seq<(Seq<char>, Seq<char>)>,
    pub script_tags: Seq<Seq<char>>,
    pub html: Seq<char>,
}

pub open spec fn pairs_view(v: Seq<(String, String)>) -> Seq<(Seq<char>, Seq<char>)> {
    v.map_values(|e: (String, String)| (e.0@, e.1@))
}

pub open spec fn strings_view(v: Seq<String>) -> Seq<Seq<char>> {
    v.map_values(|s: String| s@)
}

impl View for RawData {
    type V = RawDataView;

    open spec fn view(&self) -> RawDataView {
        RawDataView {
            headers: pairs_view(self.headers@),
            cookies: self.cookies@.map_values(|c: Cookie| (c.name@, c.value@)),
            meta_tags: pairs_view(self.meta_tags@),
            script_tags: strings_view(self.script_tags@),
            html: self.html@,
        }
    }
}

/// The value of the first entry at or after index `i` whose key is `key`.
pub open spec fn lookup_from(entries: Seq<(Seq<char>, Seq<char>)>, key: Seq<char>, i: int) -> Option<Seq<char>>
    decreases entries.len() - i,
{
    if i < 0 || i >= entries.len() {
        None
    } else if entries[i].0 == key {
        Some(entries[i].1)
    } else {
        lookup_from(entries, key, i + 1)
    }
}

/// The value of the first entry whose key is `key`.
pub open spec fn lookup(entries: Seq<(Seq<char>, Seq<char>)>, key: Seq<char>) -> Option<Seq<char>> {
    lookup_from(entries, key, 0)
}

pub open spec fn ref_chars(o: Option<&String>) -> Option<Seq<char>> {
    match o {
        Some(s) => Some(s@),
        None => None,
    }
}

/// The value of the first entry whose key is `key`.
pub fn lookup_value<'a>(entries: &'a Vec<(String, String)>, key: &String) -> (r: Option<&'a String>)
    ensures
        ref_chars(r) == lookup(pairs_view(entries@), key@),
{
    let mut i: usize = 0;
    while i < entries.len()
        invariant
            i <= entries.len(),
            lookup_from(pairs_view(entries@), key@, i as int) == lookup(pairs_view(entries@), key@),
        decreases entries.len() - i,
    {
        if entries[i].0 == *key {
            return Some(&entries[i].1);
        }
        i = i + 1;
    }
    None
}

/// The value of the first cookie named `name`.
pub fn cookie_value<'a>(cookies: &'a Vec<Cookie>, name: &String) -> (r: Option<&'a String>)
    ensures
        ref_chars(r) == lookup(cookies@.map_values(|c: Cookie| (c.name@, c.value@)), name@),
{
    let ghost v = cookies@.map_values(|c: Cookie| (c.name@, c.value@));
    let mut i: usize = 0;
    while i < cookies.len()
        invariant
            i <= cookies.len(),
            v == cookies@.map_values(|c: Cookie| (c.name@, c.value@)),
            lookup_from(v, name@, i as int) == lookup(v, name@),
        decreases cookies.len() - i,
    {
        if cookies[i].name == *name {
            return Some(&cookies[i].value);
        }
        i = i + 1;
    }
    None
}

/// What `str::to_lowercase` makes of a text.
pub uninterp spec fn lower_of(s: Seq<char>) -> Seq<char>;

/// Relies on `str::to_lowercase`, whose result depends on the characters alone.
#[verifier::external_body]
fn lowercase(s: &str) -> (r: String)
    ensures
        r@ == lower_of(s@),
{
    s.to_lowercase()
}

/// The signature of one technology. `name` is its key in the catalog.
#[derive(Debug, PartialEq)]
pub struct App {
    pub name: String,
    pub cats: Vec<u32>,
    pub website: String,
    pub priority: i32,
    pub html: Vec<String>,
    pub headers: Vec<(String, String)>,
    pub cookies: Vec<(String, String)>,
    pub js: Vec<(String, String)>,
    pub url: String,
    pub meta: Vec<(String, String)>,
    pub icon: String,
    pub implies: Vec<String>,
    pub excludes: Vec<String>,
    pub script: Vec<String>,
}

/// What detection reads of a signature.
pub ghost struct AppView {
    pub name: Seq<char>,
    pub cats: Seq<u32>,
    pub html: Seq<Seq<char>>,
    pub headers: Seq<(Seq<char>, Seq<char>)>,
    pub cookies: Seq<(Seq<char>, Seq<char>)>,
    pub js: Seq<(Seq<char>, Seq<char>)>,
    pub meta: Seq<(Seq<char>, Seq<char>)>,
    pub implies: Seq<Seq<char>>,
}

impl View for App {
    type V = AppView;

    open spec fn view(&self) -> AppView {
        AppView {
            name: self.name@,
            cats: self.cats@,
            html: strings_view(self.html@),
            headers: pairs_view(self.headers@),
            cookies: pairs_view(self.cookies@),
            js: pairs_view(self.js@),
            meta: pairs_view(self.meta@),
            implies: strings_view(self.implies@),
        }
    }
}

/// A header rule hits when the page has the header, looked up by the rule's
/// name in lower case, and the pattern matches its value.
pub open spec fn header_rule_hits(rule: (Seq<char>, Seq<char>), raw: RawDataView) -> bool {
    match lookup(raw.headers, lower_of(rule.0)) {
        Some(v) => text_matches(rule.1, v),
        None => false,
    }
}

/// A cookie rule hits when the page has a cookie of that name and the rule's
/// pattern is empty or matches the cookie's value.
pub open spec fn cookie_rule_hits(rule: (Seq<char>, Seq<char>), raw: RawDataView) -> bool {
    match lookup(raw.cookies, rule.0) {
        Some(v) => rule.1.len() == 0 || text_matches(rule.1, v),
        None => false,
    }
}

/// A script rule hits when its key, read as a pattern, matches a script tag.
pub open spec fn script_rule_hits(rule: (Seq<char>, Seq<char>), raw: RawDataView) -> bool {
    exists|k: int| 0 <= k < raw.script_tags.len() && #[trigger] text_matches(rule.0, raw.script_tags[k])
}

/// A meta rule hits when the page has a meta tag of that name and the pattern
/// matches its content.
pub open spec fn meta_rule_hits(rule: (Seq<char>, Seq<char>), raw: RawDataView) -> bool {
    match lookup(raw.meta_tags, rule.0) {
        Some(v) => text_matches(rule.1, v),
        None => false,
    }
}

/// Whether any rule of a signature hits on the page.
pub open spec fn app_matches(app: AppView, raw: RawDataView) -> bool {
    ||| exists|i: int| 0 <= i < app.headers.len() && #[trigger] header_rule_hits(app.headers[i], raw)
    ||| exists|i: int| 0 <= i < app.html.len() && #[trigger] text_matches(app.html[i], raw.html)
    ||| exists|i: int| 0 <= i < app.cookies.len() && #[trigger] cookie_rule_hits(app.cookies[i], raw)
    ||| exists|i: int| 0 <= i < app.js.len() && #[trigger] script_rule_hits(app.js[i], raw)
    ||| exists|i: int| 0 <= i < app.meta.len() && #[trigger] meta_rule_hits(app.meta[i], raw)
}

impl App {
    pub fn headers(&self) -> (r: &Vec<(String, String)>)
        ensures
            r@ == self.headers@,
    {
        &self.headers
    }

    pub fn cookies(&self) -> (r: &Vec<(String, String)>)
        ensures
            r@ == self.cookies@,
    {
        &self.cookies
    }

    pub fn meta(&self) -> (r: &Vec<(String, String)>)
        ensures
            r@ == self.meta@,
    {
        &self.meta
    }

    pub fn html(&self) -> (r: &[String])
        ensures
            r@ == self.html@,
    {
        self.html.as_slice()
    }

    pub fn script(&self) -> (r: &[String])
        ensures
            r@ == self.script@,
    {
        self.script.as_slice()
    }

    pub fn js(&self) -> (r: &Vec<(String, String)>)
        ensures
            r@ == self.js@,
    {
        &self.js
    }

    /// Whether the page shows this technology: the rules are tried headers
    /// first, then HTML, cookies, script tags and meta tags, and the first
    /// rule that hits settles it.
    pub fn check(&self, raw_data: &RawData) -> (r: bool)
        ensures
            r == app_matches(self@, raw_data@),
    {
        let ghost a = self@;
        let ghost raw = raw_data@;
        let mut i: usize = 0;
        while i < self.headers.len()
            invariant
                a == self@,
                raw == raw_data@,
                i <= self.headers.len(),
                forall|j: int| 0 <= j < i ==> !header_rule_hits(#[trigger] a.headers[j], raw),
            decreases self.headers.len() - i,
        {
            let key = lowercase(self.headers[i].0.as_str());
            match lookup_value(&raw_data.headers, &key) {
                Some(value) => {
                    if check_text(self.headers[i].1.as_str(), value.as_str()) {
                        assert(header_rule_hits(a.headers[i as int], raw));
                        return true;
                    }
                },
                None => {},
            }
            i = i + 1;
        }
        let mut i: usize = 0;
        while i < self.html.len()
            invariant
                a == self@,
                raw == raw_data@,
                i <= self.html.len(),
                forall|j: int| 0 <= j < i ==> !text_matches(#[trigger] a.html[j], raw.html),
            decreases self.html.len() - i,
        {
            if check_text(self.html[i].as_str(), raw_data.html.as_str()) {
                assert(text_matches(a.html[i as int], raw.html));
                return true;
            }
            i = i + 1;
        }
        let mut i: usize = 0;
        while i < self.cookies.len()
            invariant
                a == self@,
                raw == raw_data@,
                i <= self.cookies.len(),
                forall|j: int| 0 <= j < i ==> !cookie_rule_hits(#[trigger] a.cookies[j], raw),
            decreases self.cookies.len() - i,
        {
            match cookie_value(&raw_data.cookies, &self.cookies[i].0) {
                Some(value) => {
                    if self.cookies[i].1.unicode_len() == 0 || check_text(
                        self.cookies[i].1.as_str(),
                        value.as_str(),
                    ) {
                        assert(cookie_rule_hits(a.cookies[i as int], raw));
                        return true;
                    }
                },
                None => {},
            }
            i = i + 1;
        }
        let mut i: usize = 0;
        while i < self.js.len()
            invariant
                a == self@,
                raw == raw_data@,
                i <= self.js.len(),
                forall|j: int| 0 <= j < i ==> !script_rule_hits(#[trigger] a.js[j], raw),
            decreases self.js.len() - i,
        {
            let mut k: usize = 0;
            while k < raw_data.script_tags.len()
                invariant
                    a == self@,
                    raw == raw_data@,
                    i < self.js.len(),
                    k <= raw_data.script_tags.len(),
                    forall|m: int| 0 <= m < k ==> !text_matches(a.js[i as int].0, #[trigger] raw.script_tags[m]),
                decreases raw_data.script_tags.len() - k,
            {
                if check_text(self.js[i].0.as_str(), raw_data.script_tags[k].as_str()) {
                    assert(text_matches(a.js[i as int].0, raw.script_tags[k as int]));
                    assert(script_rule_hits(a.js[i as int], raw));
                    return true;
                }
                k = k + 1;
            }
            i = i + 1;
        }
        let mut i: usize = 0;
        while i < self.meta.len()
            invariant
                a == self@,
                raw == raw_data@,
                i <= self.meta.len(),
                forall|j: int| 0 <= j < i ==> !meta_rule_hits(#[trigger] a.meta[j], raw),
            decreases self.meta.len() - i,
        {
            match lookup_value(&raw_data.meta_tags, &self.meta[i].0) {
                Some(value) => {
                    if check_text(self.meta[i].1.as_str(), value.as_str()) {
                        assert(meta_rule_hits(a.meta[i as int], raw));
                        return true;
                    }
                },
                None => {},
            }
            i = i + 1;
        }
        false
    }
}

/// The first present value at or after index `i`.
pub open spec fn first_some_from(s: Seq<Option<Seq<char>>>, i: int) -> Option<Seq<char>>
    decreases s.len() - i,
{
    if i < 0 || i >= s.len() {
        None
    } else if s[i] is Some {
        s[i]
    } else {
        first_some_from(s, i + 1)
    }
}

/// The first present value.
pub open spec fn first_some(s: Seq<Option<Seq<char>>>) -> Option<Seq<char>> {
    first_some_from(s, 0)
}

pub open spec fn or_else(a: Option<Seq<char>>, b: Option<Seq<char>>) -> Option<Seq<char>> {
    if a is Some {
        a
    } else {
        b
    }
}

pub open spec fn header_rule_version(rule: (Seq<char>, Seq<char>), raw: RawDataView) -> Option<Seq<char>> {
    match lookup(raw.headers, lower_of(rule.0)) {
        Some(v) => pattern_version(rule.1, v),
        None => None,
    }
}

pub open spec fn cookie_rule_version(rule: (Seq<char>, Seq<char>), raw: RawDataView) -> Option<Seq<char>> {
    match lookup(raw.cookies, rule.0) {
        Some(v) => pattern_version(rule.1, v),
        None => None,
    }
}

pub open spec fn script_rule_version(rule: (Seq<char>, Seq<char>), raw: RawDataView) -> Option<Seq<char>> {
    first_some(raw.script_tags.map_values(|t: Seq<char>| pattern_version(rule.0, t)))
}

pub open spec fn meta_rule_version(rule: (Seq<char>, Seq<char>), raw: RawDataView) -> Option<Seq<char>> {
    match lookup(raw.meta_tags, rule.0) {
        Some(v) => pattern_version(rule.1, v),
        None => None,
    }
}

pub open spec fn header_versions(app: AppView, raw: RawDataView) -> Seq<Option<Seq<char>>> {
    app.headers.map_values(|r: (Seq<char>, Seq<char>)| header_rule_version(r, raw))
}

pub open spec fn html_versions(app: AppView, raw: RawDataView) -> Seq<Option<Seq<char>>> {
    app.html.map_values(|p: Seq<char>| pattern_version(p, raw.html))
}

pub open spec fn cookie_versions(app: AppView, raw: RawDataView) -> Seq<Option<Seq<char>>> {
    app.cookies.map_values(|r: (Seq<char>, Seq<char>)| cookie_rule_version(r, raw))
}

pub open spec fn script_versions(app: AppView, raw: RawDataView) -> Seq<Option<Seq<char>>> {
    app.js.map_values(|r: (Seq<char>, Seq<char>)| script_rule_version(r, raw))
}

pub open spec fn meta_versions(app: AppView, raw: RawDataView) -> Seq<Option<Seq<char>>> {
    app.meta.map_values(|r: (Seq<char>, Seq<char>)| meta_rule_version(r, raw))
}

/// The version of a technology on a page: the first version that a rule's
/// pattern yields, rules taken in the matcher's order (headers, HTML,
/// cookies, script tags, meta tags).
pub open spec fn infer(app: AppView, raw: RawDataView) -> Option<Seq<char>> {
    or_else(
        first_some(header_versions(app, raw)),
        or_else(
            first_some(html_versions(app, raw)),
            or_else(
                first_some(cookie_versions(app, raw)),
                or_else(first_some(script_versions(app, raw)), first_some(meta_versions(app, raw))),
            ),
        ),
    )
}

fn header_version(app: &App, raw_data: &RawData) -> (r: Option<String>)
    ensures
        opt_chars(r) == first_some(header_versions(app@, raw_data@)),
{
    let ghost s = header_versions(app@, raw_data@);
    let mut i: usize = 0;
    while i < app.headers.len()
        invariant
            s == header_versions(app@, raw_data@),
            i <= app.headers.len(),
            first_some_from(s, i as int) == first_some(s),
        decreases app.headers.len() - i,
    {
        let key = lowercase(app.headers[i].0.as_str());
        let v = match lookup_value(&raw_data.headers, &key) {
            Some(value) => version_in(app.headers[i].1.as_str(), value.as_str()),
            None => None,
        };
        assert(opt_chars(v) == s[i as int]);
        if v.is_some() {
            return v;
        }
        i = i + 1;
    }
    None
}

fn html_version(app: &App, raw_data: &RawData) -> (r: Option<String>)
    ensures
        opt_chars(r) == first_some(html_versions(app@, raw_data@)),
{
    let ghost s = html_versions(app@, raw_data@);
    let mut i: usize = 0;
    while i < app.html.len()
        invariant
            s == html_versions(app@, raw_data@),
            i <= app.html.len(),
            first_some_from(s, i as int) == first_some(s),
        decreases app.html.len() - i,
    {
        let v = version_in(app.html[i].as_str(), raw_data.html.as_str());
        assert(opt_chars(v) == s[i as int]);
        if v.is_some() {
            return v;
        }
        i = i + 1;
    }
    None
}

fn cookie_version(app: &App, raw_data: &RawData) -> (r: Option<String>)
    ensures
        opt_chars(r) == first_some(cookie_versions(app@, raw_data@)),
{
    let ghost s = cookie_versions(app@, raw_data@);
    let mut i: usize = 0;
    while i < app.cookies.len()
        invariant
            s == cookie_versions(app@, raw_data@),
            i <= app.cookies.len(),
            first_some_from(s, i as int) == first_some(s),
        decreases app.cookies.len() - i,
    {
        let v = match cookie_value(&raw_data.cookies, &app.cookies[i].0) {
            Some(value) => version_in(app.cookies[i].1.as_str(), value.as_str()),
            None => None,
        };
        assert(opt_chars(v) == s[i as int]);
        if v.is_some() {
            return v;
        }
        i = i + 1;
    }
    None
}

fn script_rule_version_of(key: &String, raw_data: &RawData) -> (r: Option<String>)
    ensures
        opt_chars(r) == first_some(raw_data@.script_tags.map_values(|t: Seq<char>| pattern_version(key@, t))),
{
    let ghost s = raw_data@.script_tags.map_values(|t: Seq<char>| pattern_version(key@, t));
    let mut k: usize = 0;
    while k < raw_data.script_tags.len()
        invariant
            s == raw_data@.script_tags.map_values(|t: Seq<char>| pattern_version(key@, t)),
            k <= raw_data.script_tags.len(),
            first_some_from(s, k as int) == first_some(s),
        decreases raw_data.script_tags.len() - k,
    {
        let v = version_in(key.as_str(), raw_data.script_tags[k].as_str());
        assert(opt_chars(v) == s[k as int]);
        if v.is_some() {
            return v;
        }
        k = k + 1;
    }
    None
}

fn script_version(app: &App, raw_data: &RawData) -> (r: Option<String>)
    ensures
        opt_chars(r) == first_some(script_versions(app@, raw_data@)),
{
    let ghost s = script_versions(app@, raw_data@);
    let mut i: usize = 0;
    while i < app.js.len()
        invariant
            s == script_versions(app@, raw_data@),
            i <= app.js.len(),
            first_some_from(s, i as int) == first_some(s),
        decreases app.js.len() - i,
    {
        let v = script_rule_version_of(&app.js[i].0, raw_data);
        assert(opt_chars(v) == s[i as int]);
        if v.is_some() {
            return v;
        }
        i = i + 1;
    }
    None
}

fn meta_version(app: &App, raw_data: &RawData) -> (r: Option<String>)
    ensures
        opt_chars(r) == first_some(meta_versions(app@, raw_data@)),
{
    let ghost s = meta_versions(app@, raw_data@);
    let mut i: usize = 0;
    while i < app.meta.len()
        invariant
            s == meta_versions(app@, raw_data@),
            i <= app.meta.len(),
            first_some_from(s, i as int) == first_some(s),
        decreases app.meta.len() - i,
    {
        let v = match lookup_value(&raw_data.meta_tags, &app.meta[i].0) {
            Some(value) => version_in(app.meta[i].1.as_str(), value.as_str()),
            None => None,
        };
        assert(opt_chars(v) == s[i as int]);
        if v.is_some() {
            return v;
        }
        i = i + 1;
    }
    None
}

/// The version of a technology on a page (see `infer`).
pub fn infer_version(app: &App, raw_data: &RawData) -> (r: Option<String>)
    ensures
        opt_chars(r) == infer(app@, raw_data@),
{
    let v = header_version(app, raw_data);
    if v.is_some() {
        return v;
    }
    let v = html_version(app, raw_data);
    if v.is_some() {
        return v;
    }
    let v = cookie_version(app, raw_data);
    if v.is_some() {
        return v;
    }
    let v = script_version(app, raw_data);
    if v.is_some() {
        return v;
    }
    meta_version(app, raw_data)
}

/// A technology that is found on a page
#[derive(Debug, Clone, Eq, Hash)]
pub struct Tech {
    pub category: String,
    pub name: String,
    pub version: Option<String>,
}

pub ghost struct TechView {
    pub category: Seq<char>,
    pub name: Seq<char>,
    pub version: Option<Seq<char>>,
}

impl View for Tech {
    type V = TechView;

    open spec fn view(&self) -> TechView {
        TechView { category: self.category@, name: self.name@, version: opt_chars(self.version) }
    }
}

fn tech_eq(a: &Tech, b: &Tech) -> (r: bool)
    ensures
        r == (a@ == b@),
{
    if a.category != b.category || a.name != b.name {
        return false;
    }
    match (&a.version, &b.version) {
        (Some(x), Some(y)) => *x == *y,
        (None, None) => true,
        _ => false,
    }
}

impl PartialEq for Tech {
    fn eq(&self, other: &Tech) -> (r: bool)
        ensures
            r == (self@ == other@),
    {
        tech_eq(self, other)
    }
}

impl vstd::std_specs::cmp::PartialEqSpecImpl for Tech {
    open spec fn obeys_eq_spec() -> bool {
        true
    }

    open spec fn eq_spec(&self, other: &Tech) -> bool {
        self@ == other@
    }
}

/// A category of technologies.
#[derive(Debug, PartialEq)]
pub struct Category {
    pub name: String,
    pub priority: u8,
}

/// What detection reads of the catalog: its signatures, and each category's
/// name by id.
pub ghost struct CatalogView {
    pub apps: Seq<AppView>,
    pub categories: Map<u32, Seq<char>>,
}

/// A catalog in which every signature names a known category first, and no
/// two signatures share a name.
pub open spec fn well_formed(c: CatalogView) -> bool {
    &&& forall|i: int|
        0 <= i < c.apps.len() ==> #[trigger] c.apps[i].cats.len() > 0 && c.categories.contains_key(
            c.apps[i].cats[0],
        )
    &&& forall|i: int, j: int|
        #![trigger c.apps[i], c.apps[j]]
        0 <= i < c.apps.len() && 0 <= j < c.apps.len() && i != j ==> c.apps[i].name != c.apps[j].name
}

pub open spec fn apps_view(apps: Seq<App>) -> Seq<AppView> {
    apps.map_values(|a: App| a@)
}

pub open spec fn category_names(m: Map<u32, Category>) -> Map<u32, Seq<char>> {
    m.map_values(|c: Category| c.name@)
}

/// The catalog of technology signatures and of their categories. It does
/// not change once built.
#[derive(Debug)]
pub struct AppsJsonData {
    apps: Vec<App>,
    categories: HashMap<u32, Category>,
}

impl View for AppsJsonData {
    type V = CatalogView;

    closed spec fn view(&self) -> CatalogView {
        CatalogView { apps: apps_view(self.apps@), categories: category_names(self.categories@) }
    }
}

impl AppsJsonData {
    #[verifier::type_invariant]
    closed spec fn catalog_invariant(self) -> bool {
        well_formed(self@)
    }

    /// Builds a catalog from signatures, each named by its key, and a
    /// category table. Fails when a signature has no category, names an
    /// unknown category first, or shares its name with another.
    pub fn new(apps: Vec<App>, categories: HashMap<u32, Category>) -> (r: Result<AppsJsonData, WappError>)
        ensures
            r is Ok <==> well_formed(
                CatalogView { apps: apps_view(apps@), categories: category_names(categories@) },
            ),
            r matches Ok(c) ==> c@ == (CatalogView { apps: apps_view(apps@), categories: category_names(categories@) }),
            r matches Err(e) ==> e is Other,
    {
        broadcast use vstd::std_specs::hash::group_hash_axioms;
        let ghost cv = CatalogView { apps: apps_view(apps@), categories: category_names(categories@) };
        let mut i: usize = 0;
        while i < apps.len()
            invariant
                cv == (CatalogView { apps: apps_view(apps@), categories: category_names(categories@) }),
                i <= apps.len(),
                forall|k: int|
                    0 <= k < i ==> #[trigger] cv.apps[k].cats.len() > 0 && cv.categories.contains_key(cv.apps[k].cats[0]),
            decreases apps.len() - i,
        {
            if apps[i].cats.len() == 0 || !categories.contains_key(&apps[i].cats[0]) {
                assert(!(cv.apps[i as int].cats.len() > 0 && cv.categories.contains_key(cv.apps[i as int].cats[0])));
                return Err(WappError::Other(String::from_str("a technology names no known category")));
            }
            i = i + 1;
        }
        let mut i: usize = 0;
        while i < apps.len()
            invariant
                cv == (CatalogView { apps: apps_view(apps@), categories: category_names(categories@) }),
                i <= apps.len(),
                forall|a: int, b: int|
                    #![trigger cv.apps[a], cv.apps[b]]
                    0 <= a < i && 0 <= b < apps.len() && a != b ==> cv.apps[a].name != cv.apps[b].name,
            decreases apps.len() - i,
        {
            let mut j: usize = 0;
            while j < apps.len()
                invariant
                    cv == (CatalogView { apps: apps_view(apps@), categories: category_names(categories@) }),
                    i < apps.len(),
                    j <= apps.len(),
                    forall|a: int, b: int|
                        #![trigger cv.apps[a], cv.apps[b]]
                        0 <= a < i && 0 <= b < apps.len() && a != b ==> cv.apps[a].name != cv.apps[b].name,
                    forall|b: int|
                        0 <= b < j && b != i ==> cv.apps[i as int].name != #[trigger] cv.apps[b].name,
                decreases apps.len() - j,
            {
                if j != i && apps[i].name == apps[j].name {
                    assert(cv.apps[i as int].name == cv.apps[j as int].name);
                    return Err(WappError::Other(String::from_str("two technologies share a name")));
                }
                j = j + 1;
            }
            i = i + 1;
        }
        Ok(AppsJsonData { apps, categories })
    }

    /// The name of the category with this id.
    pub fn category_name(&self, id: u32) -> (r: Option<String>)
        ensures
            opt_chars(r) == (if self@.categories.contains_key(id) {
                Some(self@.categories[id])
            } else {
                None
            }),
    {
        broadcast use vstd::std_specs::hash::group_hash_axioms;
        match self.categories.get(&id) {
            Some(category) => Some(category.name.clone()),
            None => None,
        }
    }

    /// The signatures of the catalog.
    pub fn apps(&self) -> (r: &Vec<App>)
        ensures
            apps_view(r@) == self@.apps,
    {
        &self.apps
    }

    /// The index of the signature with this name.
    pub fn position(&self, name: &String) -> (r: Option<usize>)
        ensures
            r matches Some(j) ==> j < self@.apps.len() && self@.apps[j as int].name == name@,
            r is None ==> forall|j: int| 0 <= j < self@.apps.len() ==> #[trigger] self@.apps[j].name != name@,
    {
        let mut j: usize = 0;
        while j < self.apps.len()
            invariant
                j <= self.apps.len(),
                forall|k: int| 0 <= k < j ==> #[trigger] self@.apps[k].name != name@,
            decreases self.apps.len() - j,
        {
            if self.apps[j].name == *name {
                return Some(j);
            }
            j = j + 1;
        }
        None
    }
}

impl App {
    /// The name of this technology's first category.
    pub fn category_name(&self, catalog: &AppsJsonData) -> (r: String)
        requires
            self@.cats.len() > 0,
            catalog@.categories.contains_key(self@.cats[0]),
        ensures
            r@ == catalog@.categories[self@.cats[0]],
    {
        match catalog.category_name(self.cats[0]) {
            Some(name) => name,
            None => String::new(),
        }
    }
}

/// The technology a signature stands for on a page: its first category's
/// name, its name, and the version inferred for it.
pub open spec fn tech_of(c: CatalogView, app: AppView, raw: RawDataView) -> TechView {
    TechView { category: c.categories[app.cats[0]], name: app.name, version: infer(app, raw) }
}

impl Tech {
    pub fn from(app: &App, catalog: &AppsJsonData) -> (r: Tech)
        requires
            app@.cats.len() > 0,
            catalog@.categories.contains_key(app@.cats[0]),
        ensures
            r@ == (TechView { category: catalog@.categories[app@.cats[0]], name: app@.name, version: None }),
    {
        Tech::from_with_version(app, None, catalog)
    }

    pub fn from_with_version(app: &App, version: Option<String>, catalog: &AppsJsonData) -> (r: Tech)
        requires
            app@.cats.len() > 0,
            catalog@.categories.contains_key(app@.cats[0]),
        ensures
            r@ == (TechView {
                category: catalog@.categories[app@.cats[0]],
                name: app@.name,
                version: opt_chars(version),
            }),
    {
        Tech { name: app.name.clone(), category: app.category_name(catalog), version }
    }
}

/// Whether `t` stands for a signature that one of the first `k` names that
/// `app` implies names.
pub open spec fn implied_within(c: CatalogView, app: AppView, raw: RawDataView, k: int, t: TechView) -> bool {
    exists|k2: int, j: int|
        0 <= k2 < k && 0 <= j < c.apps.len() && #[trigger] c.apps[j].name == #[trigger] app.implies[k2]
            && t == tech_of(c, c.apps[j], raw)
}

/// Whether `t` is among what one signature contributes on a page: nothing
/// unless the signature matches; then itself and each signature of the
/// catalog that it implies (one level deep).
pub open spec fn unit_contains(c: CatalogView, app: AppView, raw: RawDataView, t: TechView) -> bool {
    &&& app_matches(app, raw)
    &&& {
        ||| t == tech_of(c, app, raw)
        ||| implied_within(c, app, raw, app.implies.len() as int, t)
    }
}

/// What the catalog detects on a page: the union of what each signature
/// contributes.
pub open spec fn detected(c: CatalogView, raw: RawDataView) -> Set<TechView> {
    Set::new(|t: TechView| exists|i: int| 0 <= i < c.apps.len() && #[trigger] unit_contains(c, c.apps[i], raw, t))
}

pub open spec fn techs_view(v: Seq<Tech>) -> Seq<TechView> {
    v.map_values(|t: Tech| t@)
}

/// Adds a technology to a list that holds no two equal ones.
fn push_unique(out: &mut Vec<Tech>, t: Tech)
    requires
        techs_view(old(out)@).no_duplicates(),
    ensures
        techs_view(final(out)@).no_duplicates(),
        forall|v: TechView| techs_view(final(out)@).contains(v) <==> (techs_view(old(out)@).contains(v) || v == t@),
{
    let ghost orig = out@;
    assert(techs_view(orig).no_duplicates());
    let mut i: usize = 0;
    while i < out.len()
        invariant
            out@ == orig,
            techs_view(orig).no_duplicates(),
            i <= out.len(),
            forall|k: int| 0 <= k < i ==> #[trigger] out@[k]@ != t@,
        decreases out.len() - i,
    {
        if tech_eq(&out[i], &t) {
            assert(techs_view(out@)[i as int] == t@);
            return;
        }
        i = i + 1;
    }
    let ghost before = out@;
    out.push(t);
    proof {
        assert(techs_view(out@) =~= techs_view(before).push(t@));
        assert forall|v: TechView| techs_view(out@).contains(v) <==> (techs_view(before).contains(v) || v == t@) by {
            if techs_view(before).contains(v) {
                let k = choose|k: int| 0 <= k < techs_view(before).len() && techs_view(before)[k] == v;
                assert(techs_view(out@)[k] == v);
            }
            if v == t@ {
                assert(techs_view(out@)[before.len() as int] == v);
            }
        }
    }
}

proof fn lemma_implied_found(c: CatalogView, app: AppView, raw: RawDataView, k: int, j: int, v: TechView)
    requires
        well_formed(c),
        0 <= k < app.implies.len(),
        0 <= j < c.apps.len(),
        c.apps[j].name == app.implies[k],
    ensures
        implied_within(c, app, raw, k + 1, v) <==> (implied_within(c, app, raw, k, v) || v == tech_of(
            c,
            c.apps[j],
            raw,
        )),
{
    if implied_within(c, app, raw, k + 1, v) {
        let (k2, j2) = choose|k2: int, j2: int|
            0 <= k2 < k + 1 && 0 <= j2 < c.apps.len() && #[trigger] c.apps[j2].name == #[trigger] app.implies[k2]
                && v == tech_of(c, c.apps[j2], raw);
        if k2 < k {
            assert(implied_within(c, app, raw, k, v));
        } else {
            assert(c.apps[j2].name == c.apps[j].name);
            assert(j2 == j);
        }
    }
    if implied_within(c, app, raw, k, v) {
        let (k2, j2) = choose|k2: int, j2: int|
            0 <= k2 < k && 0 <= j2 < c.apps.len() && #[trigger] c.apps[j2].name == #[trigger] app.implies[k2]
                && v == tech_of(c, c.apps[j2], raw);
        assert(c.apps[j2].name == app.implies[k2]);
    }
    if v == tech_of(c, c.apps[j], raw) {
        assert(c.apps[j].name == app.implies[k]);
    }
}

proof fn lemma_implied_missing(c: CatalogView, app: AppView, raw: RawDataView, k: int, v: TechView)
    requires
        0 <= k < app.implies.len(),
        forall|j: int| 0 <= j < c.apps.len() ==> #[trigger] c.apps[j].name != app.implies[k],
    ensures
        implied_within(c, app, raw, k + 1, v) == implied_within(c, app, raw, k, v),
{
    if implied_within(c, app, raw, k + 1, v) {
        let (k2, j2) = choose|k2: int, j2: int|
            0 <= k2 < k + 1 && 0 <= j2 < c.apps.len() && #[trigger] c.apps[j2].name == #[trigger] app.implies[k2]
                && v == tech_of(c, c.apps[j2], raw);
        assert(k2 != k);
        assert(implied_within(c, app, raw, k, v));
    }
    if implied_within(c, app, raw, k, v) {
        let (k2, j2) = choose|k2: int, j2: int|
            0 <= k2 < k && 0 <= j2 < c.apps.len() && #[trigger] c.apps[j2].name == #[trigger] app.implies[k2]
                && v == tech_of(c, c.apps[j2], raw);
        assert(c.apps[j2].name == app.implies[k2]);
    }
}

/// Adds what signature `i` of the catalog contributes on the page.
fn add_unit(catalog: &AppsJsonData, i: usize, raw_data: &RawData, out: &mut Vec<Tech>)
    requires
        i < catalog@.apps.len(),
        techs_view(old(out)@).no_duplicates(),
    ensures
        techs_view(final(out)@).no_duplicates(),
        forall|v: TechView|
            techs_view(final(out)@).contains(v) <==> (techs_view(old(out)@).contains(v) || unit_contains(
                catalog@,
                catalog@.apps[i as int],
                raw_data@,
                v,
            )),
{
    proof {
        use_type_invariant(catalog);
    }
    let ghost c = catalog@;
    let ghost raw = raw_data@;
    let ghost start = out@;
    let apps = catalog.apps();
    let app = &apps[i];
    assert(app@ == c.apps[i as int]);
    if !app.check(raw_data) {
        return;
    }
    let mut k: usize = 0;
    while k < app.implies.len()
        invariant
            c == catalog@,
            raw == raw_data@,
            well_formed(c),
            apps_view(apps@) == c.apps,
            app@ == c.apps[i as int],
            i < c.apps.len(),
            k <= app.implies.len(),
            techs_view(out@).no_duplicates(),
            forall|v: TechView|
                techs_view(out@).contains(v) <==> (techs_view(start).contains(v) || implied_within(
                    c,
                    app@,
                    raw,
                    k as int,
                    v,
                )),
        decreases app.implies.len() - k,
    {
        let ghost mid = out@;
        assert(app@.implies[k as int] == app.implies@[k as int]@);
        match catalog.position(&app.implies[k]) {
            Some(j) => {
                let b = &apps[j];
                assert(b@ == c.apps[j as int]);
                assert(c.apps[j as int].cats.len() > 0);
                let version = infer_version(b, raw_data);
                let t = Tech::from_with_version(b, version, catalog);
                assert(t@ == tech_of(c, c.apps[j as int], raw));
                assert(c.apps[j as int].name == app@.implies[k as int]);
                push_unique(out, t);
                assert forall|v: TechView|
                    techs_view(out@).contains(v) <==> (techs_view(start).contains(v) || implied_within(
                        c,
                        app@,
                        raw,
                        k + 1,
                        v,
                    )) by {
                    lemma_implied_found(c, app@, raw, k as int, j as int, v);
                    assert(techs_view(mid).contains(v) <==> (techs_view(start).contains(v) || implied_within(c, app@, raw, k as int, v)));
                    assert(techs_view(out@).contains(v) <==> (techs_view(mid).contains(v) || v == t@));
                }
            },
            None => {
                assert forall|v: TechView|
                    techs_view(out@).contains(v) <==> (techs_view(start).contains(v) || implied_within(
                        c,
                        app@,
                        raw,
                        k + 1,
                        v,
                    )) by {
                    lemma_implied_missing(c, app@, raw, k as int, v);
                    assert(techs_view(mid).contains(v) <==> (techs_view(start).contains(v) || implied_within(c, app@, raw, k as int, v)));
                }
            },
        }
        let ghost prev = k as int;
        k = k + 1;
        assert forall|v: TechView|
            techs_view(out@).contains(v) <==> (techs_view(start).contains(v) || implied_within(
                c,
                app@,
                raw,
                k as int,
                v,
            )) by {
            assert(k as int == prev + 1);
            assert(techs_view(out@).contains(v) <==> (techs_view(start).contains(v) || implied_within(c, app@, raw, prev + 1, v)));
        }
    }
    assert(c.apps[i as int].cats.len() > 0);
    let version = infer_version(app, raw_data);
    let t = Tech::from_with_version(app, version, catalog);
    assert(t@ == tech_of(c, c.apps[i as int], raw));
    assert(app_matches(c.apps[i as int], raw));
    let ghost last = out@;
    push_unique(out, t);
    assert forall|v: TechView|
        techs_view(out@).contains(v) <==> (techs_view(start).contains(v) || unit_contains(c, c.apps[i as int], raw, v)) by {
        assert(techs_view(last).contains(v) <==> (techs_view(start).contains(v) || implied_within(c, app@, raw, app@.implies.len() as int, v)));
        assert(techs_view(out@).contains(v) <==> (techs_view(last).contains(v) || v == t@));
    }
}

/// Every technology that the catalog detects on a page, each once.
pub fn check(catalog: &AppsJsonData, raw_data: &RawData) -> (r: Vec<Tech>)
    ensures
        techs_view(r@).no_duplicates(),
        forall|t: TechView| techs_view(r@).contains(t) <==> detected(catalog@, raw_data@).contains(t),
{
    let ghost c = catalog@;
    let ghost raw = raw_data@;
    let n = catalog.apps().len();
    let mut out: Vec<Tech> = Vec::new();
    let mut i: usize = 0;
    while i < n
        invariant
            c == catalog@,
            raw == raw_data@,
            n == c.apps.len(),
            i <= n,
            techs_view(out@).no_duplicates(),
            forall|t: TechView|
                techs_view(out@).contains(t) <==> exists|i2: int|
                    0 <= i2 < i && #[trigger] unit_contains(c, c.apps[i2], raw, t),
        decreases n - i,
    {
        let ghost before = out@;
        add_unit(catalog, i, raw_data, &mut out);
        assert forall|t: TechView|
            techs_view(out@).contains(t) <==> exists|i2: int|
                0 <= i2 < i + 1 && #[trigger] unit_contains(c, c.apps[i2], raw, t) by {
            if unit_contains(c, c.apps[i as int], raw, t) {
            }
        }
        i = i + 1;
    }
    proof {
        assert forall|t: TechView| techs_view(out@).contains(t) <==> detected(c, raw).contains(t) by {
        }
    }
    out
}


/// Detection is a function of the catalog and the page alone: two lists that
/// each hold exactly what is detected hold the same technologies.
pub proof fn lemma_detection_deterministic(c: CatalogView, raw: RawDataView, r1: Seq<TechView>, r2: Seq<TechView>)
    requires
        forall|t: TechView| r1.contains(t) <==> detected(c, raw).contains(t),
        forall|t: TechView| r2.contains(t) <==> detected(c, raw).contains(t),
    ensures
        r1.to_set() == r2.to_set(),
{
    assert(r1.to_set() =~= r2.to_set());
}

proof fn lemma_unit_carries_over(c1: CatalogView, c2: CatalogView, app: AppView, raw: RawDataView, t: TechView)
    requires
        c1.categories == c2.categories,
        forall|a: AppView| c1.apps.contains(a) ==> c2.apps.contains(a),
        unit_contains(c1, app, raw, t),
    ensures
        unit_contains(c2, app, raw, t),
{
    if t != tech_of(c1, app, raw) {
        let (k, j) = choose|k: int, j: int|
            0 <= k < app.implies.len() && 0 <= j < c1.apps.len() && #[trigger] c1.apps[j].name
                == #[trigger] app.implies[k] && t == tech_of(c1, c1.apps[j], raw);
        assert(c1.apps.contains(c1.apps[j]));
        let j2 = choose|j2: int| 0 <= j2 < c2.apps.len() && c2.apps[j2] == c1.apps[j];
        assert(c2.apps[j2].name == app.implies[k]);
        assert(implied_within(c2, app, raw, app.implies.len() as int, t));
    }
}

/// The order of the signatures in the catalog does not change what is
/// detected: two catalogs with the same categories and the same signatures,
/// in any order, detect the same technologies.
pub proof fn lemma_order_independent(c1: CatalogView, c2: CatalogView, raw: RawDataView)
    requires
        c1.categories == c2.categories,
        forall|a: AppView| c1.apps.contains(a) <==> c2.apps.contains(a),
    ensures
        detected(c1, raw) == detected(c2, raw),
{
    assert forall|t: TechView| detected(c1, raw).contains(t) implies detected(c2, raw).contains(t) by {
        let i = choose|i: int| 0 <= i < c1.apps.len() && #[trigger] unit_contains(c1, c1.apps[i], raw, t);
        assert(c1.apps.contains(c1.apps[i]));
        let i2 = choose|i2: int| 0 <= i2 < c2.apps.len() && c2.apps[i2] == c1.apps[i];
        lemma_unit_carries_over(c1, c2, c1.apps[i], raw, t);
        assert(unit_contains(c2, c2.apps[i2], raw, t));
    }
    assert forall|t: TechView| detected(c2, raw).contains(t) implies detected(c1, raw).contains(t) by {
        let i = choose|i: int| 0 <= i < c2.apps.len() && #[trigger] unit_contains(c2, c2.apps[i], raw, t);
        assert(c2.apps.contains(c2.apps[i]));
        let i2 = choose|i2: int| 0 <= i2 < c1.apps.len() && c1.apps[i2] == c2.apps[i];
        lemma_unit_carries_over(c2, c1, c2.apps[i], raw, t);
        assert(unit_contains(c1, c1.apps[i2], raw, t));
    }
    assert(detected(c1, raw) =~= detected(c2, raw));
}

/// When a signature matches, both it and every signature that it implies
/// are detected, each with the version inferred for it on the page.
pub proof fn lemma_implied_detected(c: CatalogView, raw: RawDataView, i: int, k: int, j: int)
    requires
        0 <= i < c.apps.len(),
        app_matches(c.apps[i], raw),
        0 <= k < c.apps[i].implies.len(),
        0 <= j < c.apps.len(),
        c.apps[j].name == c.apps[i].implies[k],
    ensures
        detected(c, raw).contains(tech_of(c, c.apps[i], raw)),
        detected(c, raw).contains(tech_of(c, c.apps[j], raw)),
{
    assert(unit_contains(c, c.apps[i], raw, tech_of(c, c.apps[i], raw)));
    assert(implied_within(c, c.apps[i], raw, c.apps[i].implies.len() as int, tech_of(c, c.apps[j], raw)));
    assert(unit_contains(c, c.apps[i], raw, tech_of(c, c.apps[j], raw)));
}

/// A name in `implies` that no signature of the catalog has is skipped: the
/// signature that names it is still detected, and nothing of that name is.
pub proof fn lemma_missing_implication(c: CatalogView, raw: RawDataView, i: int, k: int)
    requires
        0 <= i < c.apps.len(),
        app_matches(c.apps[i], raw),
        0 <= k < c.apps[i].implies.len(),
        forall|j: int| 0 <= j < c.apps.len() ==> #[trigger] c.apps[j].name != c.apps[i].implies[k],
    ensures
        detected(c, raw).contains(tech_of(c, c.apps[i], raw)),
        forall|t: TechView| #[trigger] detected(c, raw).contains(t) ==> t.name != c.apps[i].implies[k],
{
    assert(unit_contains(c, c.apps[i], raw, tech_of(c, c.apps[i], raw)));
    assert forall|t: TechView| #[trigger] detected(c, raw).contains(t) implies t.name != c.apps[i].implies[k] by {
        let i2 = choose|i2: int| 0 <= i2 < c.apps.len() && #[trigger] unit_contains(c, c.apps[i2], raw, t);
        if t != tech_of(c, c.apps[i2], raw) {
            let (k2, j) = choose|k2: int, j: int|
                0 <= k2 < c.apps[i2].implies.len() && 0 <= j < c.apps.len() && #[trigger] c.apps[j].name
                    == #[trigger] c.apps[i2].implies[k2] && t == tech_of(c, c.apps[j], raw);
            assert(c.apps[j].name != c.apps[i].implies[k]);
        }
    }
}

/// A pattern that does not compile never matches, and does not keep another
/// HTML pattern of the same signature from matching.
pub proof fn lemma_invalid_pattern_tolerated(app: AppView, raw: RawDataView, bad: int, good: int)
    requires
        0 <= bad < app.html.len(),
        0 <= good < app.html.len(),
        !regex_compiles(matchable(app.html[bad])),
        text_matches(app.html[good], raw.html),
    ensures
        !text_matches(app.html[bad], raw.html),
        app_matches(app, raw),
{
}

/// A cookie rule with an empty pattern hits exactly when the page has a
/// cookie of that name, whatever its value.
pub proof fn lemma_empty_cookie_rule(name: Seq<char>, raw: RawDataView)
    ensures
        cookie_rule_hits((name, Seq::<char>::empty()), raw) == lookup(raw.cookies, name) is Some,
{
}

} // verus!
