//! What the local server decides: how a redirect is answered, what stands
//! in for a missing file, and which commits of the repository concern the
//! site.

use crate::redirects::{stored, RedirectMatch};
use crate::string_map::StringMap;
use crate::text::{
    chars_of, ends_with, find_char, finishes_with, first_index_of, split_on, split_text, str_eq,
    texts,
};
use vstd::prelude::*;
use vstd::string::*;

verus! {

/// The entries of the first `n` pairs of a query string: each pair that
/// holds `=`, cut at the first one, a later pair of a key in the place of
/// the earlier.
pub open spec fn query_entries(pairs: Seq<Seq<char>>, n: int) -> Seq<(Seq<char>, Seq<char>)>
    decreases n,
{
    if n <= 0 || n > pairs.len() {
        Seq::empty()
    } else {
        let before = query_entries(pairs, n - 1);
        let pair = pairs[n - 1];
        let at = first_index_of(pair, '=');
        if 0 <= at < pair.len() {
            stored(before, pair.take(at), pair.skip(at + 1))
        } else {
            before
        }
    }
}

/// Read a query string: pairs `key=value` with `&` between them.
pub fn parse_query(query: &str) -> (params: StringMap<String>)
    ensures
        params.entries() == query_entries(split_on(query@, '&'), split_on(query@, '&').len() as int),
{
    let pairs = split_text(query, '&');
    let mut params: StringMap<String> = StringMap::new();
    let mut i: usize = 0;
    while i < pairs.len()
        invariant
            i <= pairs@.len(),
            texts(pairs@) == split_on(query@, '&'),
            params.entries() == query_entries(split_on(query@, '&'), i as int),
        decreases pairs@.len() - i,
    {
        assert(texts(pairs@)[i as int] == pairs@[i as int]@);
        let pair = pairs[i].as_str();
        let len = pair.unicode_len();
        let at = find_char(pair, '=');
        if at < len {
            let key = pair.substring_char(0, at).to_owned();
            let value = pair.substring_char(at + 1, len).to_owned();
            proof {
                assert(key@ == pair@.take(at as int));
                assert(value@ == pair@.skip(at + 1));
            }
            params.insert(key, value);
        }
        i += 1;
    }
    params
}

/// How a rule that matched is answered.
#[derive(Clone, Copy, Debug, PartialEq, Eq, Structural)]
pub enum RedirectAction {
    /// Serve the target under the address that was asked for.
    Rewrite,
    /// Send the client to the target for good.
    Permanent,
    /// Send the client to the target for now.
    Temporary,
    /// Serve the target as the page for what is missing.
    NotFoundPage,
    /// The status is none that the server knows: serve the request itself.
    ServeRequest,
}

/// How a rule of the status `status` is answered.
pub fn redirect_action(status: u16) -> (action: RedirectAction)
    ensures
        action == match status {
            200 => RedirectAction::Rewrite,
            301 => RedirectAction::Permanent,
            302 => RedirectAction::Temporary,
            404 => RedirectAction::NotFoundPage,
            _ => RedirectAction::ServeRequest,
        },
{
    if status == 200 {
        RedirectAction::Rewrite
    } else if status == 301 {
        RedirectAction::Permanent
    } else if status == 302 {
        RedirectAction::Temporary
    } else if status == 404 {
        RedirectAction::NotFoundPage
    } else {
        RedirectAction::ServeRequest
    }
}

/// Whether a file of the request's path, if there is one, goes before the
/// rule: it does unless the rule is forced.
pub fn file_goes_first(found: &RedirectMatch) -> (first: bool)
    ensures
        first == !found.force,
{
    !found.force
}

/// The settings of a site that the server looks at.
#[derive(Clone, Debug, PartialEq, Eq)]
pub struct Settings {
    /// Whether a directory without an index is shown as a listing.
    pub directory_listing: Option<bool>,
    /// The file that answers every path that is no file.
    pub spa_mode: Option<String>,
    /// The page for what is missing.
    pub custom404: Option<String>,
}

/// What stands in for a file that is missing.
#[derive(Debug, PartialEq, Eq)]
pub enum Fallback {
    /// The single page of the application.
    Spa(String),
    /// A listing of the directory that was asked for.
    Listing,
    /// The site's own page for what is missing.
    Custom404(String),
    /// Nothing.
    NotFound,
}

/// A fallback as contracts see it.
pub enum FallbackView {
    Spa(Seq<char>),
    Listing,
    Custom404(Seq<char>),
    NotFound,
}

impl View for Fallback {
    type V = FallbackView;

    open spec fn view(&self) -> FallbackView {
        match self {
            Fallback::Spa(file) => FallbackView::Spa(file@),
            Fallback::Listing => FallbackView::Listing,
            Fallback::Custom404(file) => FallbackView::Custom404(file@),
            Fallback::NotFound => FallbackView::NotFound,
        }
    }
}

/// What the settings put in the place of a missing file: the single page
/// before all else, then the listing where listings are on and the path is
/// a directory, then the site's own page.
pub open spec fn fallback_of(settings: Option<Settings>, is_directory: bool) -> FallbackView {
    match settings {
        None => FallbackView::NotFound,
        Some(s) => match s.spa_mode {
            Some(file) => FallbackView::Spa(file@),
            None => if s.directory_listing == Some(true) && is_directory {
                FallbackView::Listing
            } else {
                match s.custom404 {
                    Some(file) => FallbackView::Custom404(file@),
                    None => FallbackView::NotFound,
                }
            },
        },
    }
}

/// Whether the answer for a missing file depends on the path being a
/// directory.
pub fn asks_for_directory(settings: &Option<Settings>) -> (asks: bool)
    ensures
        asks == match settings {
            Some(s) => s.spa_mode is None && s.directory_listing == Some(true),
            None => false,
        },
{
    match settings {
        Some(s) => s.spa_mode.is_none() && match s.directory_listing {
            Some(on) => on,
            None => false,
        },
        None => false,
    }
}

/// What stands in for a missing file.
pub fn not_found_fallback(settings: &Option<Settings>, is_directory: bool) -> (fallback: Fallback)
    ensures
        fallback@ == fallback_of(*settings, is_directory),
{
    match settings {
        None => Fallback::NotFound,
        Some(s) => match &s.spa_mode {
            Some(file) => Fallback::Spa(file.clone()),
            None => {
                let listing = match s.directory_listing {
                    Some(on) => on,
                    None => false,
                };
                if listing && is_directory {
                    Fallback::Listing
                } else {
                    match &s.custom404 {
                        Some(file) => Fallback::Custom404(file.clone()),
                        None => Fallback::NotFound,
                    }
                }
            },
        },
    }
}

/// How many `/` stand at the start of `s`.
pub open spec fn leading_slashes(s: Seq<char>) -> int
    decreases s.len(),
{
    if s.len() > 0 && s[0] == '/' {
        1 + leading_slashes(s.drop_first())
    } else {
        0
    }
}

/// A count of slashes at the start is the place of the first other
/// character.
pub proof fn lemma_leading_slashes(s: Seq<char>, n: int)
    requires
        0 <= n <= s.len(),
        forall|j: int| 0 <= j < n ==> #[trigger] s[j] == '/',
        n < s.len() ==> s[n] != '/',
    ensures
        leading_slashes(s) == n,
    decreases n,
{
    if n > 0 {
        assert(s[0] == '/');
        assert forall|j: int| 0 <= j < n - 1 implies #[trigger] s.drop_first()[j] == '/' by {
            assert(s.drop_first()[j] == s[j + 1]);
        }
        lemma_leading_slashes(s.drop_first(), n - 1);
    }
}

/// A path of the site without the slashes at its start: the path of its
/// file below the site's directory.
pub fn relative_path(path: &str) -> (relative: String)
    ensures
        relative@ == path@.skip(leading_slashes(path@)),
{
    let n = path.unicode_len();
    let mut from: usize = 0;
    while from < n && path.get_char(from) == '/'
        invariant
            from <= n == path@.len(),
            forall|j: int| 0 <= j < from ==> #[trigger] path@[j] == '/',
        decreases n - from,
    {
        from += 1;
    }
    proof {
        lemma_leading_slashes(path@, from as int);
    }
    path.substring_char(from, n).to_owned()
}

/// One operation of a commit: the record it touches and what it does.
#[derive(Clone, Debug, PartialEq, Eq)]
pub struct RepoOp {
    /// Collection and key of the record.
    pub path: String,
    /// `create`, `update` or `delete`.
    pub action: String,
}

/// What a commit means for the site that is served.
#[derive(Clone, Copy, Debug, PartialEq, Eq, Structural)]
pub enum SiteUpdate {
    /// Nothing: the commit is known, or leaves the site alone.
    Nothing,
    /// The site was written: pull it.
    Pull,
    /// The site was deleted: note the commit.
    Deleted,
}

/// The path of the manifest of the site `rkey` in commits.
pub open spec fn site_path(rkey: Seq<char>) -> Seq<char> {
    "place.wisp.fs/"@ + rkey
}

/// The path of the settings of the site `rkey` in commits.
pub open spec fn settings_path(rkey: Seq<char>) -> Seq<char> {
    "place.wisp.settings/"@ + rkey
}

/// Whether one of the first `n` operations touches `path` with one of two
/// actions.
pub open spec fn touches(ops: Seq<RepoOp>, n: int, path: Seq<char>, a: Seq<char>, b: Seq<char>) -> bool
    decreases n,
{
    if n <= 0 || n > ops.len() {
        false
    } else {
        touches(ops, n - 1, path, a, b) || (ops[n - 1].path@ == path && (ops[n - 1].action@ == a
            || ops[n - 1].action@ == b))
    }
}

/// Whether one of the first `n` operations touches `path`.
pub open spec fn mentions_path(ops: Seq<RepoOp>, n: int, path: Seq<char>) -> bool
    decreases n,
{
    if n <= 0 || n > ops.len() {
        false
    } else {
        mentions_path(ops, n - 1, path) || ops[n - 1].path@ == path
    }
}

/// What a commit means for the site `rkey`, `last_cid` being the commit
/// that was handled last: a commit that writes the site asks for a pull,
/// one that only deletes it is noted.
pub open spec fn update_of(
    ops: Seq<RepoOp>,
    rkey: Seq<char>,
    commit_cid: Seq<char>,
    last_cid: Option<Seq<char>>,
) -> SiteUpdate {
    let path = site_path(rkey);
    let all = ops.len() as int;
    if !mentions_path(ops, all, path) || last_cid == Some(commit_cid) {
        SiteUpdate::Nothing
    } else if touches(ops, all, path, "create"@, "update"@) {
        SiteUpdate::Pull
    } else if touches(ops, all, path, "delete"@, "delete"@) {
        SiteUpdate::Deleted
    } else {
        SiteUpdate::Nothing
    }
}

fn any_touches(ops: &Vec<RepoOp>, path: &str, a: &str, b: &str) -> (found: bool)
    ensures
        found == touches(ops@, ops@.len() as int, path@, a@, b@),
{
    let mut found = false;
    let mut i: usize = 0;
    while i < ops.len()
        invariant
            i <= ops@.len(),
            found == touches(ops@, i as int, path@, a@, b@),
        decreases ops@.len() - i,
    {
        if str_eq(ops[i].path.as_str(), path) && (str_eq(ops[i].action.as_str(), a) || str_eq(
            ops[i].action.as_str(),
            b,
        )) {
            found = true;
        }
        i += 1;
    }
    found
}

fn any_mentions(ops: &Vec<RepoOp>, path: &str) -> (found: bool)
    ensures
        found == mentions_path(ops@, ops@.len() as int, path@),
{
    let mut found = false;
    let mut i: usize = 0;
    while i < ops.len()
        invariant
            i <= ops@.len(),
            found == mentions_path(ops@, i as int, path@),
        decreases ops@.len() - i,
    {
        if str_eq(ops[i].path.as_str(), path) {
            found = true;
        }
        i += 1;
    }
    found
}

/// The text of a commit that may be missing.
pub open spec fn opt_view(s: Option<&String>) -> Option<Seq<char>> {
    match s {
        Some(t) => Some(t@),
        None => None,
    }
}

/// What a commit of the site's repository means for the site.
pub fn site_update(ops: &Vec<RepoOp>, rkey: &str, commit_cid: &str, last_cid: Option<&String>) -> (update:
    SiteUpdate)
    ensures
        update == update_of(ops@, rkey@, commit_cid@, opt_view(last_cid)),
{
    let mut path = "place.wisp.fs/".to_owned();
    path.append(rkey);
    if !any_mentions(ops, path.as_str()) {
        return SiteUpdate::Nothing;
    }
    let known = match last_cid {
        Some(last) => str_eq(last.as_str(), commit_cid),
        None => false,
    };
    if known {
        SiteUpdate::Nothing
    } else if any_touches(ops, path.as_str(), "create", "update") {
        SiteUpdate::Pull
    } else if any_touches(ops, path.as_str(), "delete", "delete") {
        SiteUpdate::Deleted
    } else {
        SiteUpdate::Nothing
    }
}

/// Whether a commit touches the settings of the site `rkey`.
pub fn settings_changed(ops: &Vec<RepoOp>, rkey: &str) -> (changed: bool)
    ensures
        changed == mentions_path(ops@, ops@.len() as int, settings_path(rkey@)),
{
    let mut path = "place.wisp.settings/".to_owned();
    path.append(rkey);
    any_mentions(ops, path.as_str())
}

/// The scheme of the stream of commits of a server: secure where the
/// server's own scheme is.
pub fn stream_scheme(scheme: &str) -> (stream: &'static str)
    ensures
        stream@ == if scheme@ == "https"@ {
            "wss"@
        } else {
            "ws"@
        },
{
    if str_eq(scheme, "https") {
        "wss"
    } else {
        "ws"
    }
}

/// Whether `a` comes before `b` as texts are ordered: character by
/// character, a text before the texts that go on from it.
pub open spec fn text_before(a: Seq<char>, b: Seq<char>) -> bool
    decreases a.len(),
{
    if b.len() == 0 {
        false
    } else if a.len() == 0 {
        true
    } else if a[0] != b[0] {
        (a[0] as u32) < (b[0] as u32)
    } else {
        text_before(a.drop_first(), b.drop_first())
    }
}

/// Whether `a` comes before `b` as texts are ordered.
pub fn comes_before(a: &str, b: &str) -> (before: bool)
    ensures
        before == text_before(a@, b@),
{
    let x = chars_of(a);
    let y = chars_of(b);
    let mut i: usize = 0;
    proof {
        assert(a@.skip(0) == a@);
        assert(b@.skip(0) == b@);
    }
    while i < x.len() && i < y.len()
        invariant
            i <= x@.len(),
            i <= y@.len(),
            x@ == a@,
            y@ == b@,
            text_before(a@, b@) == text_before(a@.skip(i as int), b@.skip(i as int)),
        decreases x@.len() - i,
    {
        proof {
            assert(a@.skip(i as int).drop_first() == a@.skip(i + 1));
            assert(b@.skip(i as int).drop_first() == b@.skip(i + 1));
        }
        if x[i] != y[i] {
            return (x[i] as u32) < (y[i] as u32);
        }
        i += 1;
    }
    i < y.len()
}

/// An entry of a directory listing.
#[derive(Debug, PartialEq, Eq)]
pub struct ListingItem {
    pub name: String,
    pub is_dir: bool,
}

impl Clone for ListingItem {
    fn clone(&self) -> (copy: Self)
        ensures
            copy@ == self@,
    {
        ListingItem { name: self.name.clone(), is_dir: self.is_dir }
    }
}

/// A listing item as contracts see it.
pub struct ItemView {
    pub name: Seq<char>,
    pub is_dir: bool,
}

impl View for ListingItem {
    type V = ItemView;

    open spec fn view(&self) -> ItemView {
        ItemView { name: self.name@, is_dir: self.is_dir }
    }
}

/// The views of a list of items.
pub open spec fn items_view(items: Seq<ListingItem>) -> Seq<ItemView> {
    Seq::new(items.len(), |i: int| items[i]@)
}

/// The name that a listing shows: a directory's name ends with `/`.
pub open spec fn shown_name(item: ItemView) -> Seq<char> {
    if item.is_dir {
        item.name + "/"@
    } else {
        item.name
    }
}

/// Whether `a` stands before `b` in a listing: directories before files,
/// and by the names shown among each.
pub open spec fn listed_before(a: ItemView, b: ItemView) -> bool {
    (a.is_dir && !b.is_dir) || (a.is_dir == b.is_dir && text_before(
        shown_name(a),
        shown_name(b),
    ))
}

/// `sorted` with `item` put behind the last element that it does not
/// stand before.
pub open spec fn listed_with(sorted: Seq<ItemView>, item: ItemView) -> Seq<ItemView>
    decreases sorted.len(),
{
    if sorted.len() == 0 {
        seq![item]
    } else if !listed_before(item, sorted.last()) {
        sorted.push(item)
    } else {
        listed_with(sorted.drop_last(), item).push(sorted.last())
    }
}

/// The first `n` items in the order of a listing; items that neither
/// stand before the other keep their order.
pub open spec fn listing_order(items: Seq<ItemView>, n: int) -> Seq<ItemView>
    decreases n,
{
    if n <= 0 || n > items.len() {
        Seq::empty()
    } else {
        listed_with(listing_order(items, n - 1), items[n - 1])
    }
}

/// The address that an item's link leads to.
pub open spec fn link_of(url_path: Seq<char>, name: Seq<char>) -> Seq<char> {
    if finishes_with(url_path, "/"@) {
        url_path + name
    } else {
        url_path + "/"@ + name
    }
}

/// The place of the last `c` in `s`, or -1 where there is none.
pub open spec fn last_index_of(s: Seq<char>, c: char) -> int
    decreases s.len(),
{
    if s.len() == 0 {
        -1
    } else if s.last() == c {
        s.len() - 1
    } else {
        last_index_of(s.drop_last(), c)
    }
}

/// The address of the directory above `url_path`.
pub open spec fn parent_of(url_path: Seq<char>) -> Seq<char> {
    if finishes_with(url_path, "/"@) {
        url_path + "../"@
    } else {
        let at = last_index_of(url_path, '/');
        if at < 0 {
            "//"@
        } else {
            url_path.take(at) + "/"@
        }
    }
}

/// The link of one item of a listing.
pub open spec fn item_link(url_path: Seq<char>, item: ItemView) -> Seq<char> {
    "<a href='"@ + link_of(url_path, item.name) + "'>"@ + shown_name(item) + "</a>"@
}

/// The links of the first `n` items of a listing.
pub open spec fn item_links(url_path: Seq<char>, items: Seq<ItemView>, n: int) -> Seq<char>
    decreases n,
{
    if n <= 0 || n > items.len() {
        Seq::empty()
    } else {
        item_links(url_path, items, n - 1) + item_link(url_path, items[n - 1])
    }
}

/// What stands before the links of a listing.
pub open spec fn listing_head(url_path: Seq<char>) -> Seq<char> {
    "<!DOCTYPE html><html><head><meta charset='utf-8'><title>Directory listing</title>"@
        + "<style>body{font-family:sans-serif;margin:2em}a{display:block;padding:0.5em;text-decoration:none;color:#0066cc}a:hover{background:#f0f0f0}</style>"@
        + "</head><body>"@ + "<h1>Index of "@ + url_path + "</h1>"@ + "<hr>"@
}

/// The link to the directory above, which the site's root lacks.
pub open spec fn parent_link(url_path: Seq<char>) -> Seq<char> {
    if url_path == "/"@ {
        Seq::empty()
    } else {
        "<a href='"@ + parent_of(url_path) + "'>../</a>"@
    }
}

/// The page that lists a directory: a heading, a link to the directory
/// above unless the directory is the site's root, and a link for each
/// item, directories first.
pub open spec fn listing_page(url_path: Seq<char>, items: Seq<ItemView>) -> Seq<char> {
    let sorted = listing_order(items, items.len() as int);
    listing_head(url_path) + parent_link(url_path) + item_links(
        url_path,
        sorted,
        sorted.len() as int,
    ) + "</body></html>"@
}

fn goes_before(a: &ListingItem, b: &ListingItem) -> (before: bool)
    ensures
        before == listed_before(a@, b@),
{
    if a.is_dir != b.is_dir {
        a.is_dir
    } else {
        let mut x = a.name.clone();
        let mut y = b.name.clone();
        if a.is_dir {
            x.append("/");
            y.append("/");
        }
        comes_before(x.as_str(), y.as_str())
    }
}

fn insert_item(sorted: &mut Vec<ListingItem>, item: ListingItem)
    ensures
        items_view(final(sorted)@) == listed_with(items_view(old(sorted)@), item@),
{
    let ghost before = items_view(sorted@);
    let mut at: usize = sorted.len();
    proof {
        assert(before.take(at as int) == before);
        assert(before.skip(at as int) == Seq::<ItemView>::empty());
        assert(listed_with(before, item@) + Seq::<ItemView>::empty() == listed_with(
            before,
            item@,
        ));
    }
    while at > 0 && goes_before(&item, &sorted[at - 1])
        invariant
            at <= sorted@.len(),
            before == items_view(sorted@),
            listed_with(before, item@) == listed_with(before.take(at as int), item@) + before.skip(
                at as int,
            ),
        decreases at,
    {
        proof {
            let head = before.take(at as int);
            assert(head.last() == before[at - 1]);
            assert(head.drop_last() == before.take(at - 1));
            assert(listed_with(before.take(at - 1), item@).push(before[at - 1]) + before.skip(
                at as int,
            ) =~= listed_with(before.take(at - 1), item@) + before.skip(at - 1));
        }
        at -= 1;
    }
    proof {
        let head = before.take(at as int);
        if at > 0 {
            assert(head.last() == before[at - 1]);
        }
        assert(listed_with(head, item@) == head.push(item@));
        assert(before.take(0) == Seq::<ItemView>::empty());
    }
    let ghost item_view = item@;
    sorted.insert(at, item);
    proof {
        assert(items_view(sorted@) =~= before.take(at as int).push(item_view) + before.skip(
            at as int,
        ));
    }
}

fn find_last(s: &str, c: char) -> (at: Option<usize>)
    ensures
        match at {
            Some(i) => i == last_index_of(s@, c) && i < s@.len(),
            None => last_index_of(s@, c) < 0,
        },
{
    let chars = chars_of(s);
    let mut i: usize = chars.len();
    proof {
        assert(s@.take(i as int) == s@);
    }
    while i > 0
        invariant
            i <= chars@.len(),
            chars@ == s@,
            last_index_of(s@, c) == last_index_of(s@.take(i as int), c),
        decreases i,
    {
        proof {
            assert(s@.take(i as int).last() == s@[i - 1]);
            assert(s@.take(i as int).drop_last() == s@.take(i - 1));
        }
        if chars[i - 1] == c {
            return Some(i - 1);
        }
        i -= 1;
    }
    None
}

fn sorted_items(items: &Vec<ListingItem>) -> (sorted: Vec<ListingItem>)
    ensures
        items_view(sorted@) == listing_order(items_view(items@), items@.len() as int),
{
    let mut sorted: Vec<ListingItem> = Vec::new();
    let mut i: usize = 0;
    assert(items_view(sorted@) =~= Seq::empty());
    while i < items.len()
        invariant
            i <= items@.len(),
            items_view(sorted@) == listing_order(items_view(items@), i as int),
        decreases items@.len() - i,
    {
        assert(items_view(items@)[i as int] == items@[i as int]@);
        insert_item(&mut sorted, items[i].clone());
        i += 1;
    }
    sorted
}

fn write_head(url_path: &str) -> (html: String)
    ensures
        html@ == listing_head(url_path@),
{
    let mut html =
        "<!DOCTYPE html><html><head><meta charset='utf-8'><title>Directory listing</title>".to_owned();
    html.append(
        "<style>body{font-family:sans-serif;margin:2em}a{display:block;padding:0.5em;text-decoration:none;color:#0066cc}a:hover{background:#f0f0f0}</style>",
    );
    html.append("</head><body>");
    html.append("<h1>Index of ");
    html.append(url_path);
    html.append("</h1>");
    html.append("<hr>");
    html
}

fn write_parent_link(url_path: &str) -> (html: String)
    ensures
        html@ == parent_link(url_path@),
{
    if str_eq(url_path, "/") {
        return String::new();
    }
    let mut html = "<a href='".to_owned();
    if ends_with(url_path, "/") {
        html.append(url_path);
        html.append("../");
        assert(html@ == "<a href='"@ + (url_path@ + "../"@));
    } else {
        match find_last(url_path, '/') {
            Some(at) => {
                html.append(url_path.substring_char(0, at));
                html.append("/");
                assert(html@ == "<a href='"@ + (url_path@.take(at as int) + "/"@));
            },
            None => {
                html.append("//");
            },
        }
    }
    html.append("'>../</a>");
    html
}

fn write_item_link(url_path: &str, item: &ListingItem) -> (html: String)
    ensures
        html@ == item_link(url_path@, item@),
{
    let mut link = url_path.to_owned();
    if !ends_with(url_path, "/") {
        link.append("/");
    }
    link.append(item.name.as_str());
    let mut shown = item.name.clone();
    if item.is_dir {
        shown.append("/");
    }
    let mut html = "<a href='".to_owned();
    html.append(link.as_str());
    html.append("'>");
    html.append(shown.as_str());
    html.append("</a>");
    html
}

/// The page that lists the directory at `url_path`.
pub fn directory_listing(url_path: &str, items: &Vec<ListingItem>) -> (html: String)
    ensures
        html@ == listing_page(url_path@, items_view(items@)),
{
    let sorted = sorted_items(items);
    let mut html = write_head(url_path);
    html.append(write_parent_link(url_path).as_str());
    let ghost shown = items_view(sorted@);
    let ghost start = html@;
    let mut j: usize = 0;
    assert(start + Seq::<char>::empty() == start);
    while j < sorted.len()
        invariant
            j <= sorted@.len(),
            shown == items_view(sorted@),
            html@ == start + item_links(url_path@, shown, j as int),
        decreases sorted@.len() - j,
    {
        assert(shown[j as int] == sorted@[j as int]@);
        let ghost before = html@;
        let link = write_item_link(url_path, &sorted[j]);
        html.append(link.as_str());
        proof {
            assert(start + (item_links(url_path@, shown, j as int) + link@) == before + link@);
        }
        j += 1;
    }
    html.append("</body></html>");
    html
}

} // verus!
