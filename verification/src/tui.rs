//! The full-screen interface: what it knows, and what it makes of every event.
//!
//! Everything slow (resolving a mirror, searching, downloading, looking for a
//! cover) is work for someone else: an event leaves a list of things to do, and
//! what comes of them arrives as further events. So the interface stays
//! responsive while a 40 MB file is coming down, and a mirror that takes ten
//! seconds to answer never freezes the display.
//!
//! Downloads run one at a time. That is deliberate: firing off eight parallel
//! requests at a volunteer-run mirror is a good way to get rate-limited, and it
//! makes the progress display much easier to read.

use vstd::prelude::*;
use vstd::string::*;

use crate::commands::Settings;
use crate::cover;
use crate::cover::Cover;
use crate::graphics;
use crate::graphics::{iterm_image, kitty_delete, kitty_image, kitty_png, Image, Protocol};
use crate::history::{matches_text, Entry, Outcome};
use crate::history;
use crate::keyed::Keyed;
use crate::model::{Book, Field, SearchQuery, Topic};
use crate::net;
use crate::order;
use crate::order::{keys_of_books, keys_of_entries, sort, Order, Sorting};
use crate::net::parse_host;
use crate::path;
use crate::query;
use crate::screen::Rect;
use crate::term;
use crate::text;
use crate::text::{
    chars_of,
    concat,
    copy_opt,
    cut_out,
    dec,
    lines,
    same,
    same_ignoring_case,
    string_of,
    to_ascii_lower,
    to_lower,
    trim,
    trim_end,
};

verus! {

// ---------------------------------------------------------------------------
// What there is
// ---------------------------------------------------------------------------

/// A key that was pressed.
#[derive(Debug, Clone, Copy, PartialEq, Eq, Structural)]
pub enum KeyCode {
    Enter,
    Esc,
    Tab,
    BackTab,
    Backspace,
    Delete,
    Left,
    Right,
    Home,
    End,
    Up,
    Down,
    PageUp,
    PageDown,
    Char(char),
    /// Any other.
    Other,
}

#[derive(Debug, Clone, Copy, PartialEq, Eq, Structural)]
pub struct Key {
    pub code: KeyCode,
    pub ctrl: bool,
}

/// The two halves of the program: finding books, and reading the ones you have.
///
/// They are peers rather than a view and a detour off it, which is why `q` quits
/// from either and the tab bar is always visible.
#[derive(Debug, Clone, Copy, PartialEq, Eq, Structural)]
pub enum Tab {
    Search,
    Library,
}

impl Tab {
    pub open spec fn beside(self) -> Tab {
        match self {
            Tab::Search => Tab::Library,
            Tab::Library => Tab::Search,
        }
    }

    pub fn other(self) -> (r: Self)
        ensures
            r == self.beside(),
    {
        match self {
            Tab::Search => Tab::Library,
            Tab::Library => Tab::Search,
        }
    }
}

/// What the keyboard is doing, independently of which tab is showing.
#[derive(Debug, Clone, Copy, PartialEq, Eq, Structural)]
pub enum Mode {
    Editing,
    Browsing,
    Help,
    /// Choosing what to sort by.
    Sorting,
}

/// Per-download state.
#[derive(Debug, PartialEq, Eq)]
pub enum Job {
    Queued,
    Running { done: u64, total: Option<u64> },
    Saved(String),
    Failed(String),
}

pub enum JobView {
    Queued,
    Running { done: u64, total: Option<u64> },
    Saved(Seq<char>),
    Failed(Seq<char>),
}

impl View for Job {
    type V = JobView;

    open spec fn view(&self) -> JobView {
        match self {
            Job::Queued => JobView::Queued,
            Job::Running { done, total } => JobView::Running { done: *done, total: *total },
            Job::Saved(s) => JobView::Saved(s@),
            Job::Failed(s) => JobView::Failed(s@),
        }
    }
}

/// A cover, in whichever forms this terminal can use.
#[derive(Debug)]
pub struct Art {
    /// The file as served, for iTerm2, which takes it directly.
    pub encoded: Vec<u8>,
    /// Decoded pixels, for kitty and for the half-block fallback.
    pub pixels: Option<Image>,
}

pub struct ArtView {
    pub encoded: Seq<u8>,
    pub pixels: Option<graphics::ImageView>,
}

impl View for Art {
    type V = ArtView;

    open spec fn view(&self) -> ArtView {
        ArtView { encoded: self.encoded@, pixels: graphics::image_view(self.pixels) }
    }
}

/// What is known about one book's cover.
#[derive(Debug)]
pub enum Slot {
    Looking,
    /// Looked, and there is nothing to show.
    Nothing,
    Ready(Art),
}

pub enum SlotView {
    Looking,
    Nothing,
    Ready(ArtView),
}

impl View for Slot {
    type V = SlotView;

    open spec fn view(&self) -> SlotView {
        match self {
            Slot::Looking => SlotView::Looking,
            Slot::Nothing => SlotView::Nothing,
            Slot::Ready(art) => SlotView::Ready(art@),
        }
    }
}

/// Something for the outside to do.
#[derive(Debug)]
pub enum Action {
    /// Find a working mirror.
    ResolveMirrors { refresh: bool },
    Search(SearchQuery),
    /// Download these, one after the other.
    Download(Vec<Book>),
    /// Look for the cover of a search result.
    SearchCover(Book),
    /// Look for the cover of a library book.
    LibraryCover(Entry),
    /// Take the cover off the screen.
    EraseCover,
    /// Hand a file to its reader, or to the file manager; say this once done.
    Launch { path: String, reveal: bool, said: String },
    /// Forget a past download.
    Forget(Entry),
    /// Put a text on the clipboard.
    Copy(String),
}

/// A search, by value.
pub struct QueryView {
    pub terms: Seq<char>,
    pub fields: Seq<Field>,
    pub topics: Seq<Topic>,
    pub limit: usize,
    pub extension: Option<Seq<char>>,
    pub language: Option<Seq<char>>,
}

pub open spec fn query_view(q: SearchQuery) -> QueryView {
    QueryView {
        terms: q.terms@,
        fields: q.fields@,
        topics: q.topics@,
        limit: q.limit,
        extension: q.extension.deep_view(),
        language: q.language.deep_view(),
    }
}

pub enum ActionView {
    ResolveMirrors { refresh: bool },
    Search(QueryView),
    Download(Seq<Book>),
    SearchCover(Book),
    LibraryCover(Entry),
    EraseCover,
    Launch { path: Seq<char>, reveal: bool, said: Seq<char> },
    Forget(Entry),
    Copy(Seq<char>),
}

impl View for Action {
    type V = ActionView;

    open spec fn view(&self) -> ActionView {
        match self {
            Action::ResolveMirrors { refresh } => ActionView::ResolveMirrors { refresh: *refresh },
            Action::Search(q) => ActionView::Search(query_view(*q)),
            Action::Download(v) => ActionView::Download(v@),
            Action::SearchCover(b) => ActionView::SearchCover(*b),
            Action::LibraryCover(e) => ActionView::LibraryCover(*e),
            Action::EraseCover => ActionView::EraseCover,
            Action::Launch { path, reveal, said } => ActionView::Launch {
                path: path@,
                reveal: *reveal,
                said: said@,
            },
            Action::Forget(e) => ActionView::Forget(*e),
            Action::Copy(t) => ActionView::Copy(t@),
        }
    }
}

pub open spec fn action_views(v: Seq<Action>) -> Seq<ActionView> {
    v.map_values(|a: Action| a@)
}

broadcast proof fn lemma_actions_push(v: Seq<Action>, a: Action)
    ensures
        #[trigger] action_views(v.push(a)) == action_views(v).push(a@),
{
    assert(action_views(v.push(a)) =~= action_views(v).push(a@));
}

/// Which row of a list is highlighted.
#[derive(Debug, Clone, Copy, PartialEq, Eq, Structural)]
pub struct TableState {
    pub row: Option<usize>,
}

impl TableState {
    pub fn selected(&self) -> (r: Option<usize>)
        ensures
            r == self.row,
    {
        self.row
    }

    pub fn select(&mut self, row: Option<usize>)
        ensures
            final(self).row == row,
    {
        self.row = row;
    }
}

/// The image id used for the cover. Reusing one id means each new cover replaces
/// the last rather than piling up in the terminal's store.
pub const COVER_ID: u32 = 0x636C_6267;

/// How many milliseconds the selection has to sit still before a cover is worth
/// fetching. Long enough that holding a cursor key down does not fire a request
/// per row.
pub const COVER_DELAY: u64 = 250;

/// How many results a search in the interface asks for.
pub const SEARCH_LIMIT: usize = 100;

/// What the interface knows.
#[derive(Debug)]
pub struct App {
    pub settings: Settings,
    pub tab: Tab,
    pub mode: Mode,
    pub query: String,
    /// Narrows the library to matching titles, authors and filenames.
    pub filter: String,
    /// Caret position within whichever of the two boxes is showing, as a
    /// character index. Clamped when the tab changes.
    pub caret: usize,
    pub results: Vec<Book>,
    /// Indices into `results` that survive the format and language filters, in
    /// display order. What the table actually shows.
    pub visible: Vec<usize>,
    /// Narrow the results to one file format, e.g. `epub`. Survives a new search
    /// on purpose: "epubs only" is a standing preference, not a remark about one
    /// result set.
    pub fmt_filter: Option<String>,
    /// Narrow the results to one language, matched exactly against what the
    /// mirror reported.
    pub lang_filter: Option<String>,
    /// How the results are sorted, and the library.
    pub sorting: Sorting,
    pub shelving: Sorting,
    /// The choice that is highlighted while sorting.
    pub menu: usize,
    pub table: TableState,
    pub marked: Vec<bool>,
    pub jobs: Keyed<Job>,
    pub mirrors: Vec<String>,
    pub mirror_label: String,
    pub status: String,
    pub error: Option<String>,
    pub busy: bool,
    pub downloading: bool,
    /// A search typed before the mirror pool was ready, run once it is.
    pub pending_search: bool,
    pub quit: bool,
    /// Every past download, newest first.
    pub library: Vec<Entry>,
    /// Indices into `library` that survive the filter, in display order.
    pub shown: Vec<usize>,
    pub library_table: TableState,
    /// How this terminal can draw a picture, if at all.
    pub protocol: Protocol,
    pub covers: Keyed<Slot>,
    /// When the selection will have been still for long enough, in
    /// milliseconds.
    pub cover_due: Option<u64>,
    /// What is currently painted on the screen by escape code, and where, so it
    /// is only redrawn when it actually changes.
    pub painted: Option<(String, Rect)>,
    /// Where the last frame left room for the picture.
    pub cover_area: Option<Rect>,
    /// What is left for the outside to do, in order.
    pub actions: Vec<Action>,
}

/// What the interface knows, by value.
pub struct AppView {
    pub settings: Settings,
    pub tab: Tab,
    pub mode: Mode,
    pub query: Seq<char>,
    pub filter: Seq<char>,
    pub caret: usize,
    pub results: Seq<Book>,
    pub visible: Seq<usize>,
    pub fmt_filter: Option<Seq<char>>,
    pub lang_filter: Option<Seq<char>>,
    pub sorting: Sorting,
    pub shelving: Sorting,
    pub menu: usize,
    pub row: Option<usize>,
    pub marked: Seq<bool>,
    pub jobs: Map<Seq<char>, JobView>,
    pub mirrors: Seq<Seq<char>>,
    pub mirror_label: Seq<char>,
    pub status: Seq<char>,
    pub error: Option<Seq<char>>,
    pub busy: bool,
    pub downloading: bool,
    pub pending_search: bool,
    pub quit: bool,
    pub library: Seq<Entry>,
    pub shown: Seq<usize>,
    pub library_row: Option<usize>,
    pub protocol: Protocol,
    pub covers: Map<Seq<char>, SlotView>,
    pub cover_due: Option<u64>,
    pub painted: Option<(Seq<char>, Rect)>,
    pub cover_area: Option<Rect>,
    pub actions: Seq<ActionView>,
}

pub open spec fn painted_view(p: Option<(String, Rect)>) -> Option<(Seq<char>, Rect)> {
    match p {
        Some((s, r)) => Some((s@, r)),
        None => None,
    }
}

impl View for App {
    type V = AppView;

    open spec fn view(&self) -> AppView {
        AppView {
            settings: self.settings,
            tab: self.tab,
            mode: self.mode,
            query: self.query@,
            filter: self.filter@,
            caret: self.caret,
            results: self.results@,
            visible: self.visible@,
            fmt_filter: self.fmt_filter.deep_view(),
            lang_filter: self.lang_filter.deep_view(),
            sorting: self.sorting,
            shelving: self.shelving,
            menu: self.menu,
            row: self.table.row,
            marked: self.marked@,
            jobs: self.jobs@,
            mirrors: text::texts(self.mirrors@),
            mirror_label: self.mirror_label@,
            status: self.status@,
            error: self.error.deep_view(),
            busy: self.busy,
            downloading: self.downloading,
            pending_search: self.pending_search,
            quit: self.quit,
            library: self.library@,
            shown: self.shown@,
            library_row: self.library_table.row,
            protocol: self.protocol,
            covers: self.covers@,
            cover_due: self.cover_due,
            painted: painted_view(self.painted),
            cover_area: self.cover_area,
            actions: action_views(self.actions@),
        }
    }
}

impl App {
    /// The tables by MD5 are sound.
    pub open spec fn wf(self) -> bool {
        self.jobs.wf() && self.covers.wf()
    }
}

// ---------------------------------------------------------------------------
// What is highlighted
// ---------------------------------------------------------------------------

impl AppView {
    /// The record the detail pane is describing.
    pub open spec fn book(self) -> Option<Book> {
        match self.row {
            Some(i) => if i < self.visible.len() && self.visible[i as int] < self.results.len() {
                Some(self.results[self.visible[i as int] as int])
            } else {
                None
            },
            None => None,
        }
    }

    /// The past download that is highlighted.
    pub open spec fn entry(self) -> Option<Entry> {
        match self.library_row {
            Some(i) => if i < self.shown.len() && self.shown[i as int] < self.library.len() {
                Some(self.library[self.shown[i as int] as int])
            } else {
                None
            },
            None => None,
        }
    }

    /// The MD5 of whatever is highlighted on the current tab. Covers are keyed by
    /// it regardless of where the book is being looked at, so a book downloaded
    /// and then found again in the library reuses the cover already in hand.
    pub open spec fn focus(self) -> Option<Seq<char>> {
        match self.tab {
            Tab::Search => match self.book() {
                Some(b) => Some(b.md5@),
                None => None,
            },
            Tab::Library => match self.entry() {
                Some(e) => Some(e.md5@),
                None => None,
            },
        }
    }

    /// What is known of the cover of whatever is highlighted.
    pub open spec fn slot(self) -> Option<SlotView> {
        let k = match self.focus() {
            Some(k) => k,
            None => seq![],
        };
        if self.covers.contains_key(k) {
            Some(self.covers[k])
        } else {
            None
        }
    }

    /// Whether the detail pane should make room for a picture. Space is reserved
    /// while looking too, so the pane does not jump about when the picture
    /// arrives.
    pub open spec fn shows_cover(self) -> bool {
        self.protocol != Protocol::Nothing && match self.slot() {
            Some(SlotView::Looking) => true,
            Some(SlotView::Ready(_)) => true,
            _ => false,
        }
    }

    /// The text of the box that is showing.
    pub open spec fn box_text(self) -> Seq<char> {
        match self.tab {
            Tab::Search => self.query,
            Tab::Library => self.filter,
        }
    }
}

impl App {
    /// The record the detail pane is describing.
    pub fn selected(&self) -> (r: Option<&Book>)
        ensures
            match r {
                Some(b) => self@.book() == Some(*b),
                None => self@.book() is None,
            },
    {
        match self.table.row {
            Some(i) => {
                if i < self.visible.len() && self.visible[i] < self.results.len() {
                    Some(&self.results[self.visible[i]])
                } else {
                    None
                }
            },
            None => None,
        }
    }

    pub fn selected_entry(&self) -> (r: Option<&Entry>)
        ensures
            match r {
                Some(e) => self@.entry() == Some(*e),
                None => self@.entry() is None,
            },
    {
        match self.library_table.row {
            Some(i) => {
                if i < self.shown.len() && self.shown[i] < self.library.len() {
                    Some(&self.library[self.shown[i]])
                } else {
                    None
                }
            },
            None => None,
        }
    }

    /// The MD5 of whatever is highlighted on the current tab: a search result or
    /// a library entry.
    pub fn focused_md5(&self) -> (r: Option<String>)
        ensures
            r.deep_view() == self@.focus(),
    {
        match self.tab {
            Tab::Search => match self.selected() {
                Some(b) => Some(b.md5.clone()),
                None => None,
            },
            Tab::Library => match self.selected_entry() {
                Some(e) => Some(e.md5.clone()),
                None => None,
            },
        }
    }

    /// What is known of the cover of whatever is highlighted.
    pub fn focused_slot(&self) -> (r: Option<&Slot>)
        requires
            self.wf(),
        ensures
            match r {
                Some(s) => self@.slot() == Some(s@),
                None => self@.slot() is None,
            },
    {
        let key = match self.focused_md5() {
            Some(k) => k,
            None => String::new(),
        };
        assert(self@.focus() is None ==> key@ =~= seq![]);
        self.slot_of(&key)
    }

    pub fn slot_of(&self, key: &str) -> (r: Option<&Slot>)
        requires
            self.wf(),
        ensures
            match r {
                Some(s) => self@.covers.contains_key(key@) && self@.covers[key@] == s@,
                None => !self@.covers.contains_key(key@),
            },
    {
        let mut i: usize = 0;
        proof {
            self.covers.lemma_values();
        }
        while i < self.covers.entries.len()
            invariant
                i <= self.covers.entries@.len(),
                self.wf(),
                forall|k: int| 0 <= k < i ==> (#[trigger] self.covers.entries@[k]).0@ != key@,
                forall|k: int|
                    0 <= k < self.covers.entries@.len() ==> self.covers@.contains_key(
                        (#[trigger] self.covers.entries@[k]).0@,
                    ) && self.covers@[self.covers.entries@[k].0@] == self.covers.entries@[k].1@,
            decreases self.covers.entries@.len() - i,
        {
            if same(&self.covers.entries[i].0, key) {
                return Some(&self.covers.entries[i].1);
            }
            i += 1;
        }
        proof {
            if self.covers@.contains_key(key@) {
                let k = choose|k: int|
                    0 <= k < self.covers.entries@.len() && (#[trigger] self.covers.entries@[k]).0@
                        == key@;
            }
        }
        None
    }

    /// Whether the detail pane should make room for a picture.
    pub fn cover_visible(&self) -> (r: bool)
        requires
            self.wf(),
        ensures
            r == self@.shows_cover(),
    {
        if self.protocol == Protocol::Nothing {
            return false;
        }
        match self.focused_slot() {
            Some(Slot::Looking) => true,
            Some(Slot::Ready(_)) => true,
            _ => false,
        }
    }

    pub fn input(&self) -> (r: &str)
        ensures
            r@ == self@.box_text(),
    {
        match self.tab {
            Tab::Search => self.query.as_str(),
            Tab::Library => self.filter.as_str(),
        }
    }
}

// ---------------------------------------------------------------------------
// Narrowing the results
//
// A search brings back whatever the mirror has: Das Kapital is forty German
// editions with the English translations scattered among them. Rather than make
// people re-search with `lang:` tags, two facets carve the results in place: `e`
// cycles through the formats actually present, `l` through the languages, each
// shown with a live count of what choosing it would leave.
// ---------------------------------------------------------------------------

/// The language a record is filed under.
pub open spec fn language_of(b: Book) -> Seq<char> {
    match b.language {
        Some(l) => l@,
        None => "unknown"@,
    }
}

pub open spec fn alike(a: Seq<char>, b: Seq<char>) -> bool {
    text::ascii_lower(a) == text::ascii_lower(b)
}

pub open spec fn fmt_fits(want: Option<Seq<char>>, b: Book) -> bool {
    match want {
        Some(w) => alike(b.ext_text(), w),
        None => true,
    }
}

pub open spec fn lang_fits(want: Option<Seq<char>>, b: Book) -> bool {
    match want {
        Some(w) => alike(language_of(b), w),
        None => true,
    }
}

impl AppView {
    /// Whether the current pair of filters admits a record.
    pub open spec fn admits(self, b: Book) -> bool {
        fmt_fits(self.fmt_filter, b) && lang_fits(self.lang_filter, b)
    }

    /// The first `n` results that the filters admit, by their places.
    pub open spec fn admitted(self, n: nat) -> Seq<usize>
        decreases n,
    {
        if n == 0 {
            seq![]
        } else {
            let before = self.admitted((n - 1) as nat);
            if self.admits(self.results[n - 1]) {
                before.push((n - 1) as usize)
            } else {
                before
            }
        }
    }

    /// What the filters admit, in the order it is to be shown.
    #[verifier::opaque]
    pub open spec fn ordered(self) -> Seq<usize> {
        order::sorted(
            order::book_keys(self.sorting.order, self.results),
            self.sorting.backwards,
            self.admitted(self.results.len()),
        )
    }

    /// The first row from `p` on that shows a book.
    pub open spec fn row_of(self, md5: Seq<char>, p: int) -> Option<usize>
        decreases self.visible.len() - p,
    {
        if p < 0 || p >= self.visible.len() {
            None
        } else if self.results[self.visible[p] as int].md5@ == md5 {
            Some(p as usize)
        } else {
            self.row_of(md5, p + 1)
        }
    }

    /// The selection moved, so a cover becomes due shortly.
    pub open spec fn stirred(self, now: u64) -> AppView {
        if self.protocol != Protocol::Nothing {
            AppView {
                cover_due: Some(
                    if now + COVER_DELAY > u64::MAX {
                        u64::MAX
                    } else {
                        (now + COVER_DELAY) as u64
                    },
                ),
                ..self
            }
        } else {
            self
        }
    }

    /// The rows that show recomputed, with the highlight on the same book when it
    /// survives the cut and on the top row when it does not.
    pub open spec fn refined(self, now: u64) -> AppView {
        let cut = AppView { visible: self.ordered(), ..self };
        let kept = match self.book() {
            Some(b) => cut.row_of(b.md5@, 0),
            None => None,
        };
        AppView {
            row: if cut.visible.len() == 0 {
                None
            } else {
                match kept {
                    Some(p) => Some(p),
                    None => Some(0),
                }
            },
            ..cut
        }.stirred(now)
    }

    /// The value of one facet of a record.
    pub open spec fn facet_value(self, format: bool, b: Book) -> Seq<char> {
        if format {
            text::ascii_lower(b.ext_text())
        } else {
            language_of(b)
        }
    }

    /// Whether the other facet admits a record.
    pub open spec fn other_fits(self, format: bool, b: Book) -> bool {
        if format {
            lang_fits(self.lang_filter, b)
        } else {
            fmt_fits(self.fmt_filter, b)
        }
    }

    /// How often each value of a facet occurs among the first `n` results that
    /// the other facet admits, in the order of their first occurrence.
    pub open spec fn tally(self, format: bool, n: nat) -> Seq<(Seq<char>, nat)>
        decreases n,
    {
        if n == 0 {
            seq![]
        } else {
            let before = self.tally(format, (n - 1) as nat);
            let b = self.results[n - 1];
            if self.other_fits(format, b) {
                counted(before, self.facet_value(format, b))
            } else {
                before
            }
        }
    }

    /// The values one facet could take, most common first, each counted with the
    /// *other* facet still applied, so the numbers say what picking that value
    /// would actually leave on screen.
    pub open spec fn options(self, format: bool) -> Seq<(Seq<char>, nat)> {
        arranged(self.tally(format, self.results.len()))
    }

    /// How often each format occurs among the first `n` past downloads, in the
    /// order of their first occurrence.
    pub open spec fn shelf_tally(self, n: nat) -> Seq<(Seq<char>, nat)>
        decreases n,
    {
        if n == 0 {
            seq![]
        } else {
            let before = self.shelf_tally((n - 1) as nat);
            let ext = text::ascii_lower(self.library[n - 1].ext_text());
            if ext.len() > 0 {
                counted(before, ext)
            } else {
                before
            }
        }
    }

    /// The formats of the library, most common first, each with its count.
    pub open spec fn shelf_formats(self) -> Seq<(Seq<char>, nat)> {
        arranged(self.shelf_tally(self.library.len()))
    }

    /// The filter on one facet.
    pub open spec fn facet(self, format: bool) -> Option<Seq<char>> {
        if format {
            self.fmt_filter
        } else {
            self.lang_filter
        }
    }

    /// One facet stepped through none, most common, and so on back to none.
    pub open spec fn cycled(self, format: bool, step: int, now: u64) -> AppView {
        let options = self.options(format);
        if options.len() == 0 {
            self
        } else {
            // Position 0 is "no filter"; the options follow in order.
            let at = match self.facet(format) {
                Some(c) => match option_at(options, c, 0) {
                    Some(i) => i + 1,
                    None => 0,
                },
                None => 0,
            };
            let next = (at + step) % (options.len() as int + 1);
            let value = if next > 0 {
                Some(options[next - 1].0)
            } else {
                None
            };
            (if format {
                AppView { fmt_filter: value, ..self }
            } else {
                AppView { lang_filter: value, ..self }
            }).refined(now)
        }
    }

    /// The count behind the active choice of one facet.
    pub open spec fn count_behind(self, format: bool) -> Option<nat> {
        match self.facet(format) {
            None => None,
            Some(c) => match option_at(self.options(format), c, 0) {
                Some(i) => Some(self.options(format)[i].1),
                None => Some(0),
            },
        }
    }

    /// Both filters cleared.
    pub open spec fn unfiltered(self, now: u64) -> AppView {
        if self.fmt_filter is Some || self.lang_filter is Some {
            AppView { fmt_filter: None, lang_filter: None, ..self }.refined(now)
        } else {
            self
        }
    }
}

/// The first option from `i` on with a name, whatever the case of its letters.
pub open spec fn option_at(v: Seq<(Seq<char>, nat)>, name: Seq<char>, i: int) -> Option<int>
    decreases v.len() - i,
{
    if i < 0 || i >= v.len() {
        None
    } else if alike(v[i].0, name) {
        Some(i)
    } else {
        option_at(v, name, i + 1)
    }
}

/// A tally with one more occurrence of a value.
pub open spec fn counted(v: Seq<(Seq<char>, nat)>, value: Seq<char>) -> Seq<(Seq<char>, nat)> {
    match option_at(v, value, 0) {
        Some(i) => v.update(i, (v[i].0, v[i].1 + 1)),
        None => v.push((value, 1)),
    }
}

/// Whether one option stands before another: the more common first, and of
/// those as common the one whose name comes first.
pub open spec fn ahead(a: (Seq<char>, nat), b: (Seq<char>, nat)) -> bool {
    a.1 > b.1 || (a.1 == b.1 && text::precedes(a.0, b.0, 0))
}

/// An arrangement with one more option in it, after those that stand alike.
pub open spec fn arranged_in(
    v: Seq<(Seq<char>, nat)>,
    o: (Seq<char>, nat),
) -> Seq<(Seq<char>, nat)>
    decreases v.len(),
{
    if v.len() == 0 || !ahead(o, v.last()) {
        v.push(o)
    } else {
        arranged_in(v.drop_last(), o).push(v.last())
    }
}

/// Options in their order.
pub open spec fn arranged(v: Seq<(Seq<char>, nat)>) -> Seq<(Seq<char>, nat)>
    decreases v.len(),
{
    if v.len() == 0 {
        seq![]
    } else {
        arranged_in(arranged(v.drop_last()), v.last())
    }
}

pub open spec fn option_views(v: Seq<(String, usize)>) -> Seq<(Seq<char>, nat)> {
    v.map_values(|o: (String, usize)| (o.0@, o.1 as nat))
}

fn language_name(b: &Book) -> (r: &str)
    ensures
        r@ == language_of(*b),
{
    match &b.language {
        Some(l) => l.as_str(),
        None => "unknown",
    }
}

fn find_option(v: &Vec<(String, usize)>, name: &str) -> (r: Option<usize>)
    ensures
        option_at(option_views(v@), name@, 0) == (match r {
            Some(i) => Some(i as int),
            None => None,
        }),
        r is Some ==> r->0 < v@.len(),
{
    let ghost all = option_views(v@);
    let mut i: usize = 0;
    while i < v.len()
        invariant
            i <= v@.len(),
            all == option_views(v@),
            option_at(all, name@, i as int) == option_at(all, name@, 0),
        decreases v@.len() - i,
    {
        if same_ignoring_case(&v[i].0, name) {
            return Some(i);
        }
        i += 1;
    }
    None
}

proof fn lemma_arranged_at(v: Seq<(Seq<char>, nat)>, o: (Seq<char>, nat), k: int)
    requires
        0 <= k <= v.len(),
        forall|i: int| k <= i < v.len() ==> ahead(o, #[trigger] v[i]),
        k > 0 ==> !ahead(o, v[k - 1]),
    ensures
        arranged_in(v, o) == v.insert(k, o),
    decreases v.len(),
{
    if k == v.len() {
        assert(v.insert(k, o) =~= v.push(o));
    } else {
        lemma_arranged_at(v.drop_last(), o, k);
        assert(v.insert(k, o) =~= v.drop_last().insert(k, o).push(v.last()));
    }
}

fn stands_before(a: &(String, usize), b: &(String, usize)) -> (r: bool)
    ensures
        r == ahead((a.0@, a.1 as nat), (b.0@, b.1 as nat)),
{
    a.1 > b.1 || (a.1 == b.1 && text::comes_first(&a.0, &b.0))
}

fn arrange_in(v: Vec<(String, usize)>, o: (String, usize)) -> (r: Vec<(String, usize)>)
    ensures
        option_views(r@) == arranged_in(option_views(v@), (o.0@, o.1 as nat)),
{
    let ghost all = option_views(v@);
    let ghost one = (o.0@, o.1 as nat);
    let mut v = v;
    let mut k: usize = v.len();
    while k > 0 && stands_before(&o, &v[k - 1])
        invariant
            k <= v@.len(),
            all == option_views(v@),
            one == (o.0@, o.1 as nat),
            forall|i: int| k <= i < all.len() ==> ahead(one, #[trigger] all[i]),
        decreases k,
    {
        k -= 1;
    }
    proof {
        lemma_arranged_at(all, one, k as int);
    }
    v.insert(k, o);
    assert(option_views(v@) =~= all.insert(k as int, one));
    v
}

fn arrange(v: &Vec<(String, usize)>) -> (r: Vec<(String, usize)>)
    ensures
        option_views(r@) == arranged(option_views(v@)),
{
    let ghost all = option_views(v@);
    let mut out: Vec<(String, usize)> = Vec::new();
    let mut i: usize = 0;
    assert(option_views(out@) =~= arranged(all.take(0)));
    while i < v.len()
        invariant
            i <= v@.len(),
            all == option_views(v@),
            option_views(out@) == arranged(all.take(i as int)),
        decreases v@.len() - i,
    {
        assert(all.take(i + 1).drop_last() =~= all.take(i as int));
        out = arrange_in(out, (v[i].0.clone(), v[i].1));
        i += 1;
    }
    assert(all.take(all.len() as int) =~= all);
    out
}

fn count_in(v: Vec<(String, usize)>, value: String) -> (r: Vec<(String, usize)>)
    requires
        forall|i: int| 0 <= i < v@.len() ==> (#[trigger] v@[i]).1 < usize::MAX,
    ensures
        option_views(r@) == counted(option_views(v@), value@),
        forall|i: int|
            0 <= i < r@.len() ==> (#[trigger] r@[i]).1 <= 1 || (i < v@.len() && r@[i].1 <= v@[i].1
                + 1),
{
    let ghost all = option_views(v@);
    let mut v = v;
    match find_option(&v, &value) {
        Some(i) => {
            let n = v[i].1 + 1;
            let name = v[i].0.clone();
            v.set(i, (name, n));
            assert(option_views(v@) =~= all.update(i as int, (all[i as int].0, all[i as int].1 + 1)));
        },
        None => {
            v.push((value, 1));
            assert(option_views(v@) =~= all.push((value@, 1nat)));
        },
    }
    v
}

impl App {
    pub fn fmt_admits(&self, book: &Book) -> (r: bool)
        ensures
            r == fmt_fits(self@.fmt_filter, *book),
    {
        match &self.fmt_filter {
            Some(want) => same_ignoring_case(book.ext(), want),
            None => true,
        }
    }

    pub fn lang_admits(&self, book: &Book) -> (r: bool)
        ensures
            r == lang_fits(self@.lang_filter, *book),
    {
        match &self.lang_filter {
            Some(want) => same_ignoring_case(language_name(book), want),
            None => true,
        }
    }

    /// Does the current pair of filters admit this record?
    pub fn admits(&self, book: &Book) -> (r: bool)
        ensures
            r == self@.admits(*book),
    {
        self.fmt_admits(book) && self.lang_admits(book)
    }

    fn admitted(&self) -> (r: Vec<usize>)
        ensures
            r@ == self@.admitted(self@.results.len()),
    {
        let mut out: Vec<usize> = Vec::new();
        let mut i: usize = 0;
        while i < self.results.len()
            invariant
                i <= self.results@.len(),
                out@ == self@.admitted(i as nat),
            decreases self.results@.len() - i,
        {
            if self.admits(&self.results[i]) {
                out.push(i);
            }
            i += 1;
        }
        out
    }

    fn row_of(&self, md5: &str) -> (r: Option<usize>)
        requires
            forall|i: int|
                0 <= i < self.visible@.len() ==> #[trigger] self.visible@[i] < self.results@.len(),
        ensures
            r == self@.row_of(md5@, 0),
    {
        let mut p: usize = 0;
        while p < self.visible.len()
            invariant
                p <= self.visible@.len(),
                forall|i: int|
                    0 <= i < self.visible@.len() ==> #[trigger] self.visible@[i]
                        < self.results@.len(),
                self@.row_of(md5@, p as int) == self@.row_of(md5@, 0),
            decreases self.visible@.len() - p,
        {
            let i = self.visible[p];
            if same(&self.results[i].md5, md5) {
                return Some(p);
            }
            p += 1;
        }
        None
    }

    /// Note that the selection moved, so a cover becomes due shortly.
    pub fn selection_moved(&mut self, now: u64)
        requires
            old(self).wf(),
        ensures
            final(self).wf(),
            final(self)@ == old(self)@.stirred(now),
    {
        if self.protocol != Protocol::Nothing {
            self.cover_due = Some(now.saturating_add(COVER_DELAY));
        }
    }

    /// Recompute which rows show, keeping the highlight on the same book when it
    /// survives the cut and on the top row when it does not.
    pub fn refine(&mut self, now: u64)
        requires
            old(self).wf(),
        ensures
            final(self).wf(),
            final(self)@ == old(self)@.refined(now),
    {
        let keep = match self.selected() {
            Some(b) => Some(b.md5.clone()),
            None => None,
        };
        let n: usize = self.results.len();
        let rows = self.admitted();
        let keys = keys_of_books(self.sorting.order, &self.results);
        proof {
            reveal(AppView::ordered);
            old(self)@.lemma_admitted(n as nat);
            order::lemma_sorting_stays_within(
                order::key_views(keys@),
                self.sorting.backwards,
                rows@,
                n as nat,
            );
        }
        assert(order::key_views(keys@).len() == n);
        self.visible = sort(&keys, self.sorting.backwards, &rows);
        let kept = match &keep {
            Some(md5) => self.row_of(md5),
            None => None,
        };
        let row = if self.visible.len() == 0 {
            None
        } else {
            match kept {
                Some(p) => Some(p),
                None => Some(0),
            }
        };
        self.table.select(row);
        self.selection_moved(now);
    }

    /// The formats of the library, most common first, each with its count.
    pub fn shelf_formats(&self) -> (r: Vec<(String, usize)>)
        ensures
            option_views(r@) == self@.shelf_formats(),
    {
        let mut counts: Vec<(String, usize)> = Vec::new();
        let mut i: usize = 0;
        assert(option_views(counts@) =~= seq![]);
        while i < self.library.len()
            invariant
                i <= self.library@.len(),
                option_views(counts@) == self@.shelf_tally(i as nat),
                forall|k: int| 0 <= k < counts@.len() ==> (#[trigger] counts@[k]).1 <= i,
            decreases self.library@.len() - i,
        {
            let ext = to_ascii_lower(self.library[i].ext());
            if ext.unicode_len() > 0 {
                counts = count_in(counts, ext);
            }
            i += 1;
        }
        arrange(&counts)
    }

    /// The values one facet could take, most common first, each counted with the
    /// other facet still applied.
    pub fn facet_options(&self, format: bool) -> (r: Vec<(String, usize)>)
        ensures
            option_views(r@) == self@.options(format),
    {
        let mut counts: Vec<(String, usize)> = Vec::new();
        let mut i: usize = 0;
        assert(option_views(counts@) =~= seq![]);
        while i < self.results.len()
            invariant
                i <= self.results@.len(),
                option_views(counts@) == self@.tally(format, i as nat),
                forall|k: int| 0 <= k < counts@.len() ==> (#[trigger] counts@[k]).1 <= i,
            decreases self.results@.len() - i,
        {
            let book = &self.results[i];
            let admitted = if format {
                self.lang_admits(book)
            } else {
                self.fmt_admits(book)
            };
            if admitted {
                let value = if format {
                    to_ascii_lower(book.ext())
                } else {
                    language_name(book).to_owned()
                };
                counts = count_in(counts, value);
            }
            i += 1;
        }
        arrange(&counts)
    }

    /// Step one facet through none, most common, and so on back to none.
    pub fn cycle_filter(&mut self, format: bool, step: isize, now: u64)
        requires
            old(self).wf(),
        ensures
            final(self).wf(),
            final(self)@ == old(self)@.cycled(format, step as int, now),
    {
        let options = self.facet_options(format);
        let n: usize = options.len();
        if n == 0 {
            return;
        }
        let current = if format {
            &self.fmt_filter
        } else {
            &self.lang_filter
        };
        let found = match current {
            Some(c) => find_option(&options, c),
            None => None,
        };
        // Position 0 is "no filter"; the options follow in order.
        let at: usize = match found {
            Some(i) => i + 1,
            None => 0,
        };
        let next = step_round(at, step, n);
        let value = if next > 0 {
            Some(options[next - 1].0.clone())
        } else {
            None
        };
        assert(next > 0 ==> option_views(options@)[next - 1].0 == options@[next - 1].0@);
        if format {
            self.fmt_filter = value;
        } else {
            self.lang_filter = value;
        }
        self.refine(now);
    }

    /// The count behind the active choice of one facet, for the filter bar.
    pub fn facet_count(&self, format: bool) -> (r: Option<usize>)
        ensures
            self@.count_behind(format) == (match r {
                Some(n) => Some(n as nat),
                None => None,
            }),
    {
        let current = if format {
            &self.fmt_filter
        } else {
            &self.lang_filter
        };
        match current {
            None => None,
            Some(c) => {
                let options = self.facet_options(format);
                match find_option(&options, c) {
                    Some(i) => {
                        assert(option_views(options@)[i as int].1 == options@[i as int].1);
                        Some(options[i].1)
                    },
                    None => Some(0),
                }
            },
        }
    }

    /// Clear both filters.
    pub fn clear_filters(&mut self, now: u64)
        requires
            old(self).wf(),
        ensures
            final(self).wf(),
            final(self)@ == old(self)@.unfiltered(now),
    {
        if self.fmt_filter.is_some() || self.lang_filter.is_some() {
            self.fmt_filter = None;
            self.lang_filter = None;
            self.refine(now);
        }
    }
}

/// Step round `n + 1` places.
fn step_round(at: usize, step: isize, n: usize) -> (r: usize)
    requires
        at <= n,
    ensures
        r == (at + step) % (n as int + 1),
        r <= n,
{
    let places: i128 = n as i128 + 1;
    let x: i128 = at as i128 + step as i128;
    if x >= 0 {
        (x % places) as usize
    } else {
        let back: i128 = (-x - 1) % places;
        proof {
            vstd::arithmetic::div_mod::lemma_fundamental_div_mod(-x - 1, places as int);
            let q = (-x - 1) / (places as int);
            assert(x == (-q - 1) * places + (places - 1 - back)) by (nonlinear_arith)
                requires
                    -x - 1 == places * q + back,
            ;
            vstd::arithmetic::div_mod::lemma_fundamental_div_mod_converse(
                x as int,
                places as int,
                -q - 1,
                places - 1 - back,
            );
        }
        (places - 1 - back) as usize
    }
}

impl AppView {
    /// What the filters admit are places of results, in ascending order.
    pub proof fn lemma_admitted(self, n: nat)
        requires
            n <= self.results.len(),
            self.results.len() <= usize::MAX,
        ensures
            forall|i: int|
                0 <= i < self.admitted(n).len() ==> #[trigger] self.admitted(n)[i] < n,
            forall|i: int, j: int|
                0 <= i < j < self.admitted(n).len() ==> self.admitted(n)[i] < self.admitted(n)[j],
            forall|i: int|
                0 <= i < self.admitted(n).len() ==> self.admits(
                    self.results[#[trigger] self.admitted(n)[i] as int],
                ),
            forall|k: int|
                0 <= k < n && self.admits(#[trigger] self.results[k]) ==> self.admitted(n).contains(
                    k as usize,
                ),
            self.admitted(n).len() <= n,
        decreases n,
    {
        if n > 0 {
            self.lemma_admitted((n - 1) as nat);
            let before = self.admitted((n - 1) as nat);
            let all = self.admitted(n);
            assert forall|k: int|
                0 <= k < n && self.admits(#[trigger] self.results[k]) implies all.contains(
                k as usize,
            ) by {
                if k == n - 1 {
                    assert(all[before.len() as int] == k as usize);
                } else {
                    assert(before.contains(k as usize));
                    let i = choose|i: int| 0 <= i < before.len() && before[i] == k as usize;
                    assert(all[i] == k as usize);
                }
            }
        }
    }
}

// ---------------------------------------------------------------------------
// Moving about
// ---------------------------------------------------------------------------

impl AppView {
    /// The highlight of the results moved by so many rows, within them.
    pub open spec fn moved(self, delta: int, now: u64) -> AppView {
        if self.visible.len() == 0 {
            self
        } else {
            let current = match self.row {
                Some(i) => i as int,
                None => 0,
            };
            let next = Some(term::held(current + delta, 0, self.visible.len() - 1) as usize);
            AppView {
                row: next,
                ..if next != self.row {
                    self.stirred(now)
                } else {
                    self
                }
            }
        }
    }

    /// The highlight of the library moved by so many rows, within it.
    pub open spec fn moved_library(self, delta: int, now: u64) -> AppView {
        if self.shown.len() == 0 {
            self
        } else {
            let current = match self.library_row {
                Some(i) => i as int,
                None => 0,
            };
            let next = Some(term::held(current + delta, 0, self.shown.len() - 1) as usize);
            AppView {
                library_row: next,
                ..if next != self.library_row {
                    self.stirred(now)
                } else {
                    self
                }
            }
        }
    }

    /// Whichever list the visible tab owns, moved.
    pub open spec fn moved_either(self, delta: int, now: u64) -> AppView {
        match self.tab {
            Tab::Search => self.moved(delta, now),
            Tab::Library => self.moved_library(delta, now),
        }
    }

    /// The highlight put on a given row.
    pub open spec fn at_row(self, row: usize, now: u64) -> AppView {
        AppView { row: Some(row), ..self }.stirred(now)
    }

    pub open spec fn at_library_row(self, row: usize, now: u64) -> AppView {
        AppView { library_row: Some(row), ..self }.stirred(now)
    }

    /// The mark of the highlighted result turned over.
    pub open spec fn mark_turned(self) -> AppView {
        match self.row {
            Some(i) => if i < self.visible.len() && self.visible[i as int] < self.marked.len() {
                let k = self.visible[i as int] as int;
                AppView { marked: self.marked.update(k, !self.marked[k]), ..self }
            } else {
                self
            },
            None => self,
        }
    }

    /// Whether the first `n` rows that show are all marked.
    pub open spec fn all_marked(self, n: nat) -> bool
        decreases n,
    {
        n == 0 || (self.all_marked((n - 1) as nat) && self.visible[n - 1] < self.marked.len()
            && self.marked[self.visible[n - 1] as int])
    }

    /// The marks with those of the first `n` rows that show set to a value.
    pub open spec fn marks_set(self, value: bool, n: nat) -> Seq<bool>
        decreases n,
    {
        if n == 0 {
            self.marked
        } else {
            let before = self.marks_set(value, (n - 1) as nat);
            if self.visible[n - 1] < before.len() {
                before.update(self.visible[n - 1] as int, value)
            } else {
                before
            }
        }
    }

    /// Everything showing marked, or unmarked if it was. "Everything" means
    /// everything showing: filters carve the batch too, which is the whole point
    /// of them.
    pub open spec fn all_turned(self) -> AppView {
        let n = self.visible.len();
        AppView { marked: self.marks_set(!self.all_marked(n), n), ..self }
    }
}

fn shifted(current: usize, delta: isize, last: usize) -> (r: usize)
    ensures
        r == term::held(current + delta, 0, last as int),
{
    let to: i128 = current as i128 + delta as i128;
    if to < 0 {
        0
    } else if to > last as i128 {
        last
    } else {
        to as usize
    }
}

impl App {
    pub fn move_by(&mut self, delta: isize, now: u64)
        requires
            old(self).wf(),
        ensures
            final(self).wf(),
            final(self)@ == old(self)@.moved(delta as int, now),
    {
        if self.visible.len() == 0 {
            return;
        }
        let last: usize = self.visible.len() - 1;
        let current: usize = match self.table.selected() {
            Some(i) => i,
            None => 0,
        };
        let next = shifted(current, delta, last);
        if self.table.selected() != Some(next) {
            self.selection_moved(now);
        }
        self.table.select(Some(next));
    }

    pub fn move_library_by(&mut self, delta: isize, now: u64)
        requires
            old(self).wf(),
        ensures
            final(self).wf(),
            final(self)@ == old(self)@.moved_library(delta as int, now),
    {
        if self.shown.len() == 0 {
            return;
        }
        let last: usize = self.shown.len() - 1;
        let current: usize = match self.library_table.selected() {
            Some(i) => i,
            None => 0,
        };
        let next = shifted(current, delta, last);
        if self.library_table.selected() != Some(next) {
            self.selection_moved(now);
        }
        self.library_table.select(Some(next));
    }

    /// Move whichever list the visible tab owns.
    pub fn move_selection(&mut self, delta: isize, now: u64)
        requires
            old(self).wf(),
        ensures
            final(self).wf(),
            final(self)@ == old(self)@.moved_either(delta as int, now),
    {
        match self.tab {
            Tab::Search => self.move_by(delta, now),
            Tab::Library => self.move_library_by(delta, now),
        }
    }

    fn jump(&mut self, row: usize, now: u64)
        requires
            old(self).wf(),
        ensures
            final(self).wf(),
            final(self)@ == old(self)@.at_row(row, now),
    {
        self.table.select(Some(row));
        self.selection_moved(now);
    }

    fn jump_library(&mut self, row: usize, now: u64)
        requires
            old(self).wf(),
        ensures
            final(self).wf(),
            final(self)@ == old(self)@.at_library_row(row, now),
    {
        self.library_table.select(Some(row));
        self.selection_moved(now);
    }

    fn turn_mark(&mut self)
        requires
            old(self).wf(),
        ensures
            final(self).wf(),
            final(self)@ == old(self)@.mark_turned(),
    {
        match self.table.selected() {
            Some(i) => {
                if i < self.visible.len() {
                    let k = self.visible[i];
                    if k < self.marked.len() {
                        let flag = !self.marked[k];
                        self.marked.set(k, flag);
                    }
                }
            },
            None => {},
        }
    }

    fn every_mark(&self) -> (r: bool)
        ensures
            r == self@.all_marked(self@.visible.len()),
    {
        let mut all = true;
        let mut i: usize = 0;
        while i < self.visible.len()
            invariant
                i <= self.visible@.len(),
                all == self@.all_marked(i as nat),
            decreases self.visible@.len() - i,
        {
            let k = self.visible[i];
            all = all && k < self.marked.len() && self.marked[k];
            i += 1;
        }
        all
    }

    fn turn_all(&mut self)
        requires
            old(self).wf(),
        ensures
            final(self).wf(),
            final(self)@ == old(self)@.all_turned(),
    {
        let value = !self.every_mark();
        let ghost before = self@;
        let mut marked: Vec<bool> = self.marked.clone();
        assert(marked@ =~= before.marked);
        let mut i: usize = 0;
        while i < self.visible.len()
            invariant
                i <= self.visible@.len(),
                before == self@,
                marked@ == before.marks_set(value, i as nat),
            decreases self.visible@.len() - i,
        {
            let k = self.visible[i];
            if k < marked.len() {
                marked.set(k, value);
            }
            i += 1;
        }
        self.marked = marked;
    }
}

// ---------------------------------------------------------------------------
// The library
// ---------------------------------------------------------------------------

impl AppView {
    /// Whether the filter admits a past download. Matching is the same rule the
    /// `open` selector uses (title, author or filename, whatever the case), so
    /// the two agree about what "dune" means.
    pub open spec fn lists(self, e: Entry) -> bool {
        let needle = text::lowercased(text::trimmed(self.filter));
        needle.len() == 0 || history::mentions(e, needle)
    }

    /// The first `n` past downloads that the filter admits, by their places.
    pub open spec fn listed(self, n: nat) -> Seq<usize>
        decreases n,
    {
        if n == 0 {
            seq![]
        } else {
            let before = self.listed((n - 1) as nat);
            if self.lists(self.library[n - 1]) {
                before.push((n - 1) as usize)
            } else {
                before
            }
        }
    }

    /// What the filter admits, in the order it is to be shown.
    #[verifier::opaque]
    pub open spec fn shelved(self) -> Seq<usize> {
        order::sorted(
            order::entry_keys(self.shelving.order, self.library),
            self.shelving.backwards,
            self.listed(self.library.len()),
        )
    }

    /// The library narrowed afresh. Filtering shortens the list under the
    /// highlight, so it is pulled back in rather than left pointing past the end.
    pub open spec fn refiltered(self) -> AppView {
        let shown = self.shelved();
        AppView {
            shown,
            library_row: if shown.len() == 0 {
                None
            } else {
                let current = match self.library_row {
                    Some(i) => i as int,
                    None => 0,
                };
                Some(
                    (if current < shown.len() {
                        current
                    } else {
                        shown.len() - 1
                    }) as usize,
                )
            },
            ..self
        }
    }

    /// The library as it stands on disk.
    pub open spec fn reloaded(self, past: Seq<Entry>) -> AppView {
        AppView { library: past, ..self }.refiltered()
    }

    /// Any painted cover taken off the screen.
    pub open spec fn erased(self) -> AppView {
        AppView {
            actions: if self.painted is Some && self.protocol.draws_pixels() {
                self.actions.push(ActionView::EraseCover)
            } else {
                self.actions
            },
            painted: None,
            ..self
        }
    }

    /// A tab shown, with the caret somewhere valid for the box that is now
    /// showing.
    pub open spec fn showing(self, tab: Tab, now: u64, past: Seq<Entry>) -> AppView {
        if self.tab == tab {
            self
        } else {
            let turned = AppView { tab, error: None, ..self };
            let placed = AppView { caret: turned.box_text().len() as usize, ..turned };
            match tab {
                // Downloads made elsewhere belong here too. Whatever is painted
                // belongs to the tab that is left; the library's own cover is
                // then armed like any selection.
                Tab::Library => {
                    let there = placed.reloaded(past).erased().stirred(now);
                    AppView { status: library_status(past.len()), ..there }
                },
                // The detail pane is back, so its cover has to be placed again.
                Tab::Search => AppView {
                    status: search_status(self.results.len()),
                    ..placed.stirred(now)
                },
            }
        }
    }

    /// A file handed over: what there is to do, and what to say once done.
    pub open spec fn launching(self, e: Entry, showing: bool, verb: Seq<char>) -> AppView {
        AppView {
            actions: self.actions.push(
                ActionView::Launch {
                    path: e.path@,
                    reveal: showing,
                    said: verb + " "@ + e.filename_text(),
                },
            ),
            ..self
        }
    }

    /// The highlighted past download handed to a reader, or to the file manager.
    pub open spec fn launched_entry(self, showing: bool) -> AppView {
        match self.entry() {
            Some(e) => self.launching(
                e,
                showing,
                if showing {
                    "showing"@
                } else {
                    "opened"@
                },
            ),
            None => self,
        }
    }

    /// The file for the highlighted search result handed over, if it was
    /// downloaded.
    pub open spec fn launched_result(self, showing: bool, past: Seq<Entry>) -> AppView {
        match self.book() {
            Some(b) => match entry_with(past, b.md5@, 0) {
                Some(i) => self.launching(past[i], showing, "opened"@),
                None => AppView { error: Some(NOT_DOWNLOADED@), ..self },
            },
            None => self,
        }
    }

    /// The MD5 of the book that is highlighted.
    pub open spec fn highlighted(self) -> Option<Seq<char>> {
        match self.tab {
            Tab::Search => match self.book() {
                Some(b) => Some(b.md5@),
                None => None,
            },
            Tab::Library => match self.entry() {
                Some(e) => Some(e.md5@),
                None => None,
            },
        }
    }

    /// The MD5 of the highlighted book on its way to the clipboard.
    pub open spec fn copied(self) -> AppView {
        match self.highlighted() {
            Some(md5) => AppView {
                status: "copied "@ + md5,
                actions: self.actions.push(ActionView::Copy(md5)),
                ..self
            },
            None => self,
        }
    }

    /// The highlighted past download to be forgotten. The file itself is left
    /// alone.
    pub open spec fn forgetting(self) -> AppView {
        match self.entry() {
            Some(e) => AppView { actions: self.actions.push(ActionView::Forget(e)), ..self },
            None => self,
        }
    }
}

pub const NOT_DOWNLOADED: &'static str = "that one has not been downloaded yet";

pub open spec fn library_status(n: nat) -> Seq<char> {
    if n == 0 {
        "nothing downloaded yet"@
    } else if n == 1 {
        "1 book in the library"@
    } else {
        text::decimal(n) + " books in the library"@
    }
}

pub open spec fn search_status(n: nat) -> Seq<char> {
    if n == 0 {
        "press / to search"@
    } else {
        text::decimal(n) + " result(s)"@
    }
}

/// The first past download from `i` on with an MD5.
pub open spec fn entry_with(past: Seq<Entry>, md5: Seq<char>, i: int) -> Option<int>
    decreases past.len() - i,
{
    if i < 0 || i >= past.len() {
        None
    } else if past[i].md5@ == md5 {
        Some(i)
    } else {
        entry_with(past, md5, i + 1)
    }
}

pub fn find_entry(past: &Vec<Entry>, md5: &str) -> (r: Option<usize>)
    ensures
        entry_with(past@, md5@, 0) == (match r {
            Some(i) => Some(i as int),
            None => None,
        }),
        r is Some ==> r->0 < past@.len(),
{
    let mut i: usize = 0;
    while i < past.len()
        invariant
            i <= past@.len(),
            entry_with(past@, md5@, i as int) == entry_with(past@, md5@, 0),
        decreases past@.len() - i,
    {
        if same(&past[i].md5, md5) {
            return Some(i);
        }
        i += 1;
    }
    None
}

fn copy_entries(v: &Vec<Entry>) -> (r: Vec<Entry>)
    ensures
        r@ == v@,
{
    let mut out: Vec<Entry> = Vec::new();
    let mut i: usize = 0;
    while i < v.len()
        invariant
            i <= v@.len(),
            out@ == v@.take(i as int),
        decreases v@.len() - i,
    {
        out.push(v[i].clone());
        assert(v@.take(i as int).push(v@[i as int]) =~= v@.take(i + 1));
        i += 1;
    }
    assert(out@ =~= v@);
    out
}

impl App {
    /// Work out which entries the filter admits.
    pub fn refilter(&mut self)
        requires
            old(self).wf(),
        ensures
            final(self).wf(),
            final(self)@ == old(self)@.refiltered(),
    {
        let needle = to_lower(&trim(&self.filter));
        let mut shown: Vec<usize> = Vec::new();
        let mut i: usize = 0;
        while i < self.library.len()
            invariant
                i <= self.library@.len(),
                needle@ == text::lowercased(text::trimmed(self.filter@)),
                shown@ == self@.listed(i as nat),
                shown@.len() <= i,
                forall|k: int| 0 <= k < shown@.len() ==> #[trigger] shown@[k] < i,
            decreases self.library@.len() - i,
        {
            if needle.as_str().is_empty() || matches_text(&self.library[i], &needle) {
                shown.push(i);
            }
            i += 1;
        }
        let keys = keys_of_entries(self.shelving.order, &self.library);
        proof {
            reveal(AppView::shelved);
            assert(order::key_views(keys@).len() == self.library@.len());
        }
        let shown = sort(&keys, self.shelving.backwards, &shown);
        let row = if shown.len() == 0 {
            None
        } else {
            let current: usize = match self.library_table.selected() {
                Some(i) => i,
                None => 0,
            };
            if current < shown.len() {
                Some(current)
            } else {
                Some(shown.len() - 1)
            }
        };
        self.shown = shown;
        self.library_table.select(row);
    }

    /// Take the library as it stands on disk and reapply the filter, keeping the
    /// highlight on something sensible.
    pub fn reload_library(&mut self, past: &Vec<Entry>)
        requires
            old(self).wf(),
        ensures
            final(self).wf(),
            final(self)@ == old(self)@.reloaded(past@),
    {
        self.library = copy_entries(past);
        self.refilter();
    }

    fn act(&mut self, a: Action)
        requires
            old(self).wf(),
        ensures
            final(self).wf(),
            final(self)@ == (AppView { actions: old(self)@.actions.push(a@), ..old(self)@ }),
    {
        broadcast use lemma_actions_push;

        self.actions.push(a);
    }

    /// Take any painted cover off the screen.
    pub fn erase_cover(&mut self)
        requires
            old(self).wf(),
        ensures
            final(self).wf(),
            final(self)@ == old(self)@.erased(),
    {
        if self.painted.is_some() && self.protocol.is_pixels() {
            self.act(Action::EraseCover);
        }
        self.painted = None;
    }

    /// Switch tabs, carrying the caret somewhere valid for the box that is now
    /// showing.
    pub fn show(&mut self, tab: Tab, now: u64, past: &Vec<Entry>)
        requires
            old(self).wf(),
        ensures
            final(self).wf(),
            final(self)@ == old(self)@.showing(tab, now, past@),
    {
        if self.tab == tab {
            return;
        }
        self.tab = tab;
        self.error = None;
        self.caret = chars_of(self.input()).len();
        match tab {
            Tab::Library => {
                self.reload_library(past);
                self.erase_cover();
                self.selection_moved(now);
                self.status = match past.len() {
                    0 => "nothing downloaded yet".to_owned(),
                    1 => "1 book in the library".to_owned(),
                    n => {
                        let mut m = dec(n as u64);
                        m.append(" books in the library");
                        m
                    },
                };
            },
            Tab::Search => {
                self.selection_moved(now);
                self.status = if self.results.len() == 0 {
                    "press / to search".to_owned()
                } else {
                    let mut m = dec(self.results.len() as u64);
                    m.append(" result(s)");
                    m
                };
            },
        }
    }

    fn launch(&mut self, e: &Entry, showing: bool, verb: &str)
        requires
            old(self).wf(),
        ensures
            final(self).wf(),
            final(self)@ == old(self)@.launching(*e, showing, verb@),
    {
        let mut said = verb.to_owned();
        said.append(" ");
        said.append(&e.filename());
        self.act(Action::Launch { path: e.path.clone(), reveal: showing, said });
    }

    /// Hand a past download to a reader, or to the file manager.
    pub fn launch_selected(&mut self, showing: bool)
        requires
            old(self).wf(),
        ensures
            final(self).wf(),
            final(self)@ == old(self)@.launched_entry(showing),
    {
        let entry = match self.selected_entry() {
            Some(e) => e.clone(),
            None => {
                return;
            },
        };
        let verb = if showing {
            "showing"
        } else {
            "opened"
        };
        self.launch(&entry, showing, verb);
    }

    /// Open the file for the highlighted search result, if it was downloaded.
    pub fn launch_result(&mut self, showing: bool, past: &Vec<Entry>)
        requires
            old(self).wf(),
        ensures
            final(self).wf(),
            final(self)@ == old(self)@.launched_result(showing, past@),
    {
        let md5 = match self.selected() {
            Some(b) => b.md5.clone(),
            None => {
                return;
            },
        };
        match find_entry(past, &md5) {
            Some(i) => {
                self.launch(&past[i], showing, "opened");
            },
            None => {
                self.error = Some(NOT_DOWNLOADED.to_owned());
            },
        }
    }

    /// Put the MD5 of the highlighted book on the clipboard.
    pub fn copy_md5(&mut self)
        requires
            old(self).wf(),
        ensures
            final(self).wf(),
            final(self)@ == old(self)@.copied(),
    {
        let found = match self.tab {
            Tab::Search => match self.selected() {
                Some(b) => Some(b.md5.clone()),
                None => None,
            },
            Tab::Library => match self.selected_entry() {
                Some(e) => Some(e.md5.clone()),
                None => None,
            },
        };
        if let Some(md5) = found {
            self.status = concat("copied ", &md5);
            self.act(Action::Copy(md5));
        }
    }

    /// Forget the highlighted entry. The file itself is left alone.
    pub fn forget_selected(&mut self)
        requires
            old(self).wf(),
        ensures
            final(self).wf(),
            final(self)@ == old(self)@.forgetting(),
    {
        let entry = match self.selected_entry() {
            Some(e) => e.clone(),
            None => {
                return;
            },
        };
        self.act(Action::Forget(entry));
    }
}

// ---------------------------------------------------------------------------
// Work for the outside
// ---------------------------------------------------------------------------

pub const NOTHING_TYPED: &'static str = "type something to search for";

pub const ALL_FILTERS: &'static str = "that is all filters and no search terms";

pub const ALREADY_RUNNING: &'static str = "a download is already running";

impl AppView {
    /// A working mirror to be found.
    pub open spec fn resolving(self, refresh: bool) -> AppView {
        AppView {
            busy: true,
            mirror_label: "connecting…"@,
            status: "finding a working mirror"@,
            actions: self.actions.push(ActionView::ResolveMirrors { refresh }),
            ..self
        }
    }

    /// The search in the box to be run: at once, or as soon as a mirror turns up.
    /// The box is the only input the interface has, so the tags in it do the work
    /// that flags do elsewhere.
    pub open spec fn searching(self) -> AppView {
        let terms = text::trimmed(self.query);
        let r = query::read_query(terms);
        let words = text::joined(r.words, " "@);
        if terms.len() == 0 {
            AppView { error: Some(NOTHING_TYPED@), ..self }
        } else if self.mirrors.len() == 0 {
            AppView { pending_search: true, status: "waiting for a mirror"@, ..self }
        } else if text::trimmed(words).len() == 0 {
            AppView { error: Some(ALL_FILTERS@), ..self }
        } else {
            AppView {
                busy: true,
                error: None,
                status: "searching for “"@ + words + "”"@,
                actions: self.actions.push(
                    ActionView::Search(
                        QueryView {
                            terms: words,
                            fields: r.fields,
                            topics: if r.topics.len() > 0 {
                                r.topics
                            } else {
                                seq![Topic::Libgen, Topic::Fiction]
                            },
                            limit: SEARCH_LIMIT,
                            extension: r.extension,
                            language: r.language,
                        },
                    ),
                ),
                ..self
            }
        }
    }

    /// Whether any of the first `n` marks is set.
    pub open spec fn any_mark(self, n: nat) -> bool
        decreases n,
    {
        n > 0 && (self.any_mark((n - 1) as nat) || self.marked[n - 1])
    }

    /// The marked ones of the first `n` results.
    pub open spec fn marked_books(self, n: nat) -> Seq<Book>
        decreases n,
    {
        if n == 0 {
            seq![]
        } else {
            let before = self.marked_books((n - 1) as nat);
            if n - 1 < self.marked.len() && self.marked[n - 1] {
                before.push(self.results[n - 1])
            } else {
                before
            }
        }
    }

    /// What a download takes: every marked record, or the highlighted one when
    /// none are.
    pub open spec fn chosen(self) -> Seq<Book> {
        if self.any_mark(self.marked.len()) {
            self.marked_books(self.results.len())
        } else {
            match self.book() {
                Some(b) => seq![b],
                None => seq![],
            }
        }
    }

    /// The chosen records to be downloaded.
    pub open spec fn fetching(self) -> AppView {
        let chosen = self.chosen();
        if self.downloading {
            AppView { error: Some(ALREADY_RUNNING@), ..self }
        } else if chosen.len() == 0 {
            self
        } else {
            AppView {
                jobs: queued(self.jobs, chosen),
                downloading: true,
                error: None,
                status: "downloading "@ + text::decimal(chosen.len()) + " file(s)"@,
                actions: self.actions.push(ActionView::Download(chosen)),
                ..self
            }
        }
    }
}

/// The jobs with those for some books queued.
pub open spec fn queued(jobs: Map<Seq<char>, JobView>, books: Seq<Book>) -> Map<
    Seq<char>,
    JobView,
>
    decreases books.len(),
{
    if books.len() == 0 {
        jobs
    } else {
        queued(jobs, books.drop_last()).insert(books.last().md5@, JobView::Queued)
    }
}

impl App {
    pub fn spawn_mirror_resolve(&mut self, refresh: bool)
        requires
            old(self).wf(),
        ensures
            final(self).wf(),
            final(self)@ == old(self)@.resolving(refresh),
    {
        self.busy = true;
        self.mirror_label = "connecting…".to_owned();
        self.status = "finding a working mirror".to_owned();
        self.act(Action::ResolveMirrors { refresh });
    }

    pub fn spawn_search(&mut self)
        requires
            old(self).wf(),
        ensures
            final(self).wf(),
            final(self)@ == old(self)@.searching(),
    {
        let terms = trim(&self.query);
        if terms.as_str().is_empty() {
            self.error = Some(NOTHING_TYPED.to_owned());
            return;
        }
        if self.mirrors.len() == 0 {
            // No mirror yet; run this as soon as one turns up.
            self.pending_search = true;
            self.status = "waiting for a mirror".to_owned();
            return;
        }
        let mut q = SearchQuery::new(String::new());
        q.limit = SEARCH_LIMIT;
        let ghost preset = q;
        query::apply(&terms, &mut q);
        assert(q.fields@ =~= query::read_query(terms@).fields);
        let words = trim(&q.terms);
        if words.as_str().is_empty() {
            self.error = Some(ALL_FILTERS.to_owned());
            return;
        }
        self.busy = true;
        self.error = None;
        let mut m = "searching for “".to_owned();
        m.append(&q.terms);
        m.append("”");
        self.status = m;
        self.act(Action::Search(q));
    }

    fn some_mark(&self) -> (r: bool)
        ensures
            r == self@.any_mark(self@.marked.len()),
    {
        let mut any = false;
        let mut i: usize = 0;
        while i < self.marked.len()
            invariant
                i <= self.marked@.len(),
                any == self@.any_mark(i as nat),
            decreases self.marked@.len() - i,
        {
            any = any || self.marked[i];
            i += 1;
        }
        any
    }

    fn chosen(&self) -> (r: Vec<Book>)
        ensures
            r@ == self@.chosen(),
    {
        let mut out: Vec<Book> = Vec::new();
        if !self.some_mark() {
            match self.selected() {
                Some(b) => {
                    out.push(b.clone());
                    assert(out@ =~= seq![*b]);
                },
                None => {
                    assert(out@ =~= seq![]);
                },
            }
            return out;
        }
        let mut i: usize = 0;
        while i < self.results.len()
            invariant
                i <= self.results@.len(),
                out@ == self@.marked_books(i as nat),
            decreases self.results@.len() - i,
        {
            if i < self.marked.len() && self.marked[i] {
                out.push(self.results[i].clone());
            }
            i += 1;
        }
        out
    }

    /// Download every marked record, or the highlighted one when none are.
    pub fn spawn_downloads(&mut self)
        requires
            old(self).wf(),
        ensures
            final(self).wf(),
            final(self)@ == old(self)@.fetching(),
    {
        if self.downloading {
            self.error = Some(ALREADY_RUNNING.to_owned());
            return;
        }
        let chosen = self.chosen();
        if chosen.len() == 0 {
            return;
        }
        let ghost before = self@;
        let ghost all = chosen@;
        let mut i: usize = 0;
        assert(all.take(0) =~= seq![]);
        while i < chosen.len()
            invariant
                i <= chosen@.len(),
                all == chosen@,
                self.wf(),
                self@ == (AppView { jobs: queued(before.jobs, all.take(i as int)), ..before }),
            decreases chosen@.len() - i,
        {
            assert(all.take(i + 1).drop_last() =~= all.take(i as int));
            self.jobs.insert(chosen[i].md5.clone(), Job::Queued);
            i += 1;
        }
        assert(all.take(all.len() as int) =~= all);
        self.downloading = true;
        self.error = None;
        let mut m = "downloading ".to_owned();
        m.append(&dec(chosen.len() as u64));
        m.append(" file(s)");
        self.status = m;
        self.act(Action::Download(chosen));
    }

    /// How a running download reports: at most ten times a second, so a fast
    /// transfer cannot flood the interface with redraws. `last` is when it last
    /// did, in milliseconds.
    pub fn progress_due(last: Option<u64>, now: u64) -> (r: bool)
        ensures
            r == match last {
                Some(t) => now - t >= 100,
                None => true,
            },
    {
        match last {
            Some(t) => now >= t && now - t >= 100,
            None => true,
        }
    }

    /// What a finished download is called.
    pub fn finished_name(outcome: &Outcome) -> (r: String)
        ensures
            r@ == (match path::name_of(outcome.path@) {
                Some(n) => n,
                None => seq![],
            }),
    {
        match path::file_name(&outcome.path) {
            Some(n) => n,
            None => {
                let r = String::new();
                assert(r@ =~= seq![]);
                r
            },
        }
    }
}

// ---------------------------------------------------------------------------
// Cover art
// ---------------------------------------------------------------------------

impl AppView {
    /// A cover lookup started once the selection has been still long enough.
    ///
    /// The two tabs source a cover differently: a search result has only its
    /// MD5, so its cover comes off a mirror; a library book is a file on disk
    /// that usually carries its own jacket, so that is looked at first.
    pub open spec fn polled(self, now: u64) -> AppView {
        match self.cover_due {
            None => self,
            Some(due) => if now < due {
                self
            } else {
                let settled = AppView { cover_due: None, ..self };
                match settled.focus() {
                    None => settled,
                    Some(md5) => if settled.covers.contains_key(md5) {
                        settled
                    } else {
                        match settled.tab {
                            Tab::Search => settled.looking_online(md5),
                            Tab::Library => settled.looking_locally(md5),
                        }
                    },
                }
            },
        }
    }

    /// The cover of the highlighted search result to be fetched from a mirror.
    pub open spec fn looking_online(self, md5: Seq<char>) -> AppView {
        match self.book() {
            Some(b) => if self.mirrors.len() == 0 {
                self
            } else {
                AppView {
                    covers: self.covers.insert(md5, SlotView::Looking),
                    actions: self.actions.push(ActionView::SearchCover(b)),
                    ..self
                }
            },
            None => self,
        }
    }

    /// The cover of the highlighted library book to be found.
    pub open spec fn looking_locally(self, md5: Seq<char>) -> AppView {
        match self.entry() {
            Some(e) => AppView {
                covers: self.covers.insert(md5, SlotView::Looking),
                actions: self.actions.push(ActionView::LibraryCover(e)),
                ..self
            },
            None => self,
        }
    }

    /// The cover to show right now, if there is one.
    pub open spec fn art(self) -> Option<ArtView> {
        match self.focus() {
            Some(k) => if self.covers.contains_key(k) {
                match self.covers[k] {
                    SlotView::Ready(art) => Some(art),
                    _ => None,
                }
            } else {
                None
            },
            None => None,
        }
    }

    /// What should be painted, and where.
    pub open spec fn wanted(self) -> Option<(Seq<char>, Rect)> {
        match (self.cover_area, self.focus(), self.art()) {
            (Some(rect), Some(md5), Some(_)) => Some((md5, rect)),
            _ => None,
        }
    }

    /// The escape sequence that places a cover.
    pub open spec fn placement(self, art: ArtView, rect: Rect) -> Seq<char> {
        // Terminal coordinates are one-based.
        "\x1b["@ + text::decimal((rect.y + 1) as nat) + ";"@ + text::decimal((rect.x + 1) as nat)
            + "H"@ + (if self.protocol == Protocol::ITerm2 {
            graphics::iterm_text(art.encoded, rect.width as nat, rect.height as nat)
        } else {
            match art.pixels {
                Some(image) => graphics::kitty_image_text(
                    COVER_ID as nat,
                    graphics::fitted_image(image, 400, 600),
                    rect.width as nat,
                    rect.height as nat,
                ),
                // Kitty decodes PNG itself, so it can have the file.
                None => graphics::kitty_png_text(
                    COVER_ID as nat,
                    art.encoded,
                    rect.width as nat,
                    rect.height as nat,
                ),
            }
        })
    }

    /// The escape sequence that brings the screen up to date with what should be
    /// showing, or nothing when it already is.
    pub open spec fn escape(self) -> Option<Seq<char>> {
        let want = self.wanted();
        if !self.protocol.draws_pixels() || want == self.painted {
            None
        } else {
            let gone = if self.painted is Some {
                graphics::kitty_delete_text(COVER_ID as nat)
            } else {
                seq![]
            };
            let all = match (want, self.art()) {
                (Some((_, rect)), Some(art)) => gone + self.placement(art, rect),
                _ => gone,
            };
            if all.len() == 0 {
                None
            } else {
                Some(all)
            }
        }
    }

    /// Once what should be showing is.
    pub open spec fn painted_now(self) -> AppView {
        if self.protocol.draws_pixels() {
            AppView { painted: self.wanted(), ..self }
        } else {
            self
        }
    }

    /// A cover that has been placed is left alone: nothing is written again until
    /// something changes, or the picture would flicker on every keystroke.
    pub proof fn lemma_a_settled_cover_is_left_alone(self)
        ensures
            self.painted_now().escape() is None,
            self.painted_now().painted_now() == self.painted_now(),
    {
        assert(self.painted_now().focus() == self.focus());
        assert(self.painted_now().wanted() == self.wanted());
    }
}

fn same_place(a: &Option<(String, Rect)>, b: &Option<(String, Rect)>) -> (r: bool)
    ensures
        r == (painted_view(*a) == painted_view(*b)),
{
    match (a, b) {
        (Some((x, p)), Some((y, q))) => same(x, y) && p.x == q.x && p.y == q.y && p.width == q.width
            && p.height == q.height,
        (None, None) => true,
        _ => false,
    }
}

impl App {
    /// Start a cover lookup once the selection has been still long enough.
    pub fn poll_cover(&mut self, now: u64)
        requires
            old(self).wf(),
        ensures
            final(self).wf(),
            final(self)@ == old(self)@.polled(now),
    {
        match self.cover_due {
            None => {
                return;
            },
            Some(due) => {
                if now < due {
                    return;
                }
            },
        }
        self.cover_due = None;
        let md5 = match self.focused_md5() {
            Some(m) => m,
            None => {
                return;
            },
        };
        if self.covers.contains_key(&md5) {
            return;
        }
        match self.tab {
            Tab::Search => self.spawn_search_cover(md5),
            Tab::Library => self.spawn_library_cover(md5),
        }
    }

    /// Fetch the highlighted search result's cover from a mirror.
    pub fn spawn_search_cover(&mut self, md5: String)
        requires
            old(self).wf(),
        ensures
            final(self).wf(),
            final(self)@ == old(self)@.looking_online(md5@),
    {
        if self.mirrors.len() == 0 {
            return;
        }
        let book = match self.selected() {
            Some(b) => b.clone(),
            None => {
                return;
            },
        };
        self.covers.insert(md5, Slot::Looking);
        self.act(Action::SearchCover(book));
    }

    /// Find the highlighted library book's cover, cheapest source first.
    pub fn spawn_library_cover(&mut self, md5: String)
        requires
            old(self).wf(),
        ensures
            final(self).wf(),
            final(self)@ == old(self)@.looking_locally(md5@),
    {
        let entry = match self.selected_entry() {
            Some(e) => e.clone(),
            None => {
                return;
            },
        };
        self.covers.insert(md5, Slot::Looking);
        self.act(Action::LibraryCover(entry));
    }

    /// The cover of a library book that is to hand: the jacket embedded in the
    /// file (no network, and it is the book you actually have), or one cached
    /// from a past search of the same book.
    pub fn local_cover(embedded: Option<Cover>, cached: Option<Option<Cover>>) -> (r: Option<Cover>)
        ensures
            cover::cover_view(r) == (if embedded is Some {
                cover::cover_view(embedded)
            } else {
                match cached {
                    Some(c) => cover::cover_view(c),
                    None => None,
                }
            }),
    {
        if embedded.is_some() {
            return embedded;
        }
        match cached {
            Some(c) => c,
            None => None,
        }
    }

    /// How to pull a library book's cover off a mirror: which one to ask, and the
    /// record to ask it for, built out of what the history remembers. There is
    /// nothing to do when there is no mirror to ask, which leaves the frame empty
    /// rather than showing an error over a book someone already has.
    pub fn fetch_library_cover(mirrors: &Vec<String>, entry: &Entry) -> (r: Option<(String, Book)>)
        ensures
            match r {
                None => mirrors@.len() == 0,
                Some((base, book)) => {
                    &&& mirrors@.len() > 0
                    &&& base@ == mirrors@[0]@
                    &&& book.md5@ == entry.md5@
                    &&& book.title@ == entry.title@
                    &&& book.authors.deep_view() == entry.authors.deep_view()
                    &&& book.extension.deep_view() == entry.extension.deep_view()
                    &&& book.publisher is None
                    &&& book.year is None
                    &&& book.language is None
                    &&& book.pages is None
                    &&& book.size_bytes is None
                    &&& book.file_id is None
                },
            },
    {
        if mirrors.len() == 0 {
            return None;
        }
        let mut book = Book::default();
        book.md5 = entry.md5.clone();
        book.title = entry.title.clone();
        book.authors = copy_opt(&entry.authors);
        book.extension = copy_opt(&entry.extension);
        Some((mirrors[0].clone(), book))
    }

    /// The cover to show right now, if there is one.
    pub fn current_art(&self) -> (r: Option<&Art>)
        requires
            self.wf(),
        ensures
            match r {
                Some(a) => self@.art() == Some(a@),
                None => self@.art() is None,
            },
    {
        match self.focused_md5() {
            Some(k) => match self.slot_of(&k) {
                Some(Slot::Ready(art)) => Some(art),
                _ => None,
            },
            None => None,
        }
    }

    fn place(&self, art: &Art, rect: Rect) -> (r: String)
        ensures
            r@ == self@.placement(art@, rect),
    {
        let mut out = "\x1b[".to_owned();
        out.append(&dec(rect.y as u64 + 1));
        out.append(";");
        out.append(&dec(rect.x as u64 + 1));
        out.append("H");
        let picture = if self.protocol == Protocol::ITerm2 {
            iterm_image(&art.encoded, rect.width, rect.height)
        } else {
            match &art.pixels {
                Some(image) => kitty_image(
                    COVER_ID,
                    &image.fit(400, 600),
                    rect.width,
                    rect.height,
                ),
                None => kitty_png(COVER_ID, &art.encoded, rect.width, rect.height),
            }
        };
        out.append(&picture);
        out
    }

    /// The escape sequence that brings the screen up to date with what should be
    /// showing, or `None` when it already is.
    #[verifier::spinoff_prover]
    #[verifier::rlimit(60)]
    pub fn cover_escape(&mut self) -> (r: Option<String>)
        requires
            old(self).wf(),
        ensures
            final(self).wf(),
            r.deep_view() == old(self)@.escape(),
            final(self)@ == old(self)@.painted_now(),
    {
        if !self.protocol.is_pixels() {
            return None;
        }
        let mut want: Option<(String, Rect)> = None;
        let mut placed = String::new();
        assert(placed@ =~= seq![]);
        match (self.cover_area, self.focused_md5(), self.current_art()) {
            (Some(rect), Some(md5), Some(art)) => {
                placed = self.place(art, rect);
                want = Some((md5, rect));
            },
            _ => {},
        }
        assert(painted_view(want) == self@.wanted());
        if same_place(&want, &self.painted) {
            self.painted = want;
            return None;
        }
        let mut out = String::new();
        if self.painted.is_some() {
            out = kitty_delete(COVER_ID);
        }
        let ghost gone = out@;
        assert(self@.painted is None ==> gone =~= seq![]);
        out.append(&placed);
        assert(want is None ==> out@ =~= gone);
        self.painted = want;
        if out.as_str().is_empty() {
            None
        } else {
            Some(out)
        }
    }
}

// ---------------------------------------------------------------------------
// The text box
//
// One box, two meanings: search terms on one tab, a filter on the other. Editing
// is by character, so a multi-byte query is never split.
// ---------------------------------------------------------------------------

/// The last space before `e`, as the length of the text up to and with it.
pub open spec fn after_last_space(s: Seq<char>, e: int) -> int
    decreases e,
{
    if e <= 0 {
        0
    } else if s[e - 1] == ' ' {
        e
    } else {
        after_last_space(s, e - 1)
    }
}

/// The lesser of a caret and a length.
pub open spec fn caret_in(caret: usize, len: nat) -> int {
    if caret < len {
        caret as int
    } else {
        len as int
    }
}

impl AppView {
    /// The box that is showing with another text and caret. The library narrows
    /// as you type, whereas a search waits for ⏎ because it costs a request.
    pub open spec fn typed(self, s: Seq<char>, caret: usize) -> AppView {
        match self.tab {
            Tab::Search => AppView { query: s, caret, ..self },
            Tab::Library => AppView { filter: s, caret, ..self }.refiltered(),
        }
    }

    /// A character put in at the caret.
    pub open spec fn with_char(self, c: char) -> AppView {
        let s = self.box_text();
        let at = caret_in(self.caret, s.len());
        self.typed(
            s.insert(at, c),
            if self.caret < usize::MAX {
                (self.caret + 1) as usize
            } else {
                self.caret
            },
        )
    }

    /// The character at a place taken out.
    pub open spec fn without_char(self, at: int, caret: usize) -> AppView {
        let s = self.box_text();
        if 0 <= at < s.len() {
            self.typed(s.remove(at), caret)
        } else {
            self.typed(s, caret)
        }
    }

    /// The word before the caret taken out.
    pub open spec fn without_word(self) -> AppView {
        let s = self.box_text();
        let at = caret_in(self.caret, s.len());
        let head = text::trimmed_end(s.take(at));
        let cut = after_last_space(head, head.len() as int);
        self.typed(s.take(cut) + s.skip(at), cut as usize)
    }

    /// The box emptied.
    pub open spec fn cleared(self) -> AppView {
        self.typed(seq![], 0)
    }

    /// A key pressed while the box has the keyboard.
    pub open spec fn pressed_editing(self, key: Key, now: u64) -> AppView {
        let len = self.box_text().len();
        match key.code {
            KeyCode::Enter => {
                let done = AppView { mode: Mode::Browsing, ..self };
                // A filter has already been applied on every keystroke; only a
                // search has anything left to do.
                if self.tab == Tab::Search {
                    done.searching()
                } else {
                    done
                }
            },
            KeyCode::Esc => AppView { mode: Mode::Browsing, ..self },
            KeyCode::Char(c) => if key.ctrl && c == 'u' {
                self.cleared()
            } else if key.ctrl && c == 'w' {
                self.without_word()
            } else {
                self.with_char(c)
            },
            KeyCode::Backspace => if self.caret > 0 {
                self.without_char(self.caret - 1, (self.caret - 1) as usize)
            } else {
                self
            },
            KeyCode::Delete => if self.caret < len {
                self.without_char(self.caret as int, self.caret)
            } else {
                self
            },
            KeyCode::Left => AppView {
                caret: if self.caret > 0 {
                    (self.caret - 1) as usize
                } else {
                    0
                },
                ..self
            },
            KeyCode::Right => AppView {
                caret: if self.caret < len {
                    (self.caret + 1) as usize
                } else {
                    len as usize
                },
                ..self
            },
            KeyCode::Home => AppView { caret: 0, ..self },
            KeyCode::End => AppView { caret: len as usize, ..self },
            // The lists are still navigable while the box has focus, so you can
            // narrow and pick without reaching for Esc first.
            KeyCode::Down => self.moved_either(1, now),
            KeyCode::Up => self.moved_either(-1, now),
            _ => self,
        }
    }
}

impl App {
    /// Give the box another text and caret.
    fn type_in(&mut self, s: String, caret: usize)
        requires
            old(self).wf(),
        ensures
            final(self).wf(),
            final(self)@ == old(self)@.typed(s@, caret),
    {
        self.caret = caret;
        match self.tab {
            Tab::Search => {
                self.query = s;
            },
            Tab::Library => {
                self.filter = s;
                self.refilter();
            },
        }
    }

    fn insert_char(&mut self, c: char)
        requires
            old(self).wf(),
        ensures
            final(self).wf(),
            final(self)@ == old(self)@.with_char(c),
    {
        let mut v = chars_of(self.input());
        let at: usize = if self.caret < v.len() {
            self.caret
        } else {
            v.len()
        };
        v.insert(at, c);
        let caret: usize = if self.caret < usize::MAX {
            self.caret + 1
        } else {
            self.caret
        };
        self.type_in(string_of(&v), caret);
    }

    fn remove_char(&mut self, at: usize, caret: usize)
        requires
            old(self).wf(),
        ensures
            final(self).wf(),
            final(self)@ == old(self)@.without_char(at as int, caret),
    {
        let mut v = chars_of(self.input());
        if at < v.len() {
            v.remove(at);
        }
        self.type_in(string_of(&v), caret);
    }

    fn delete_word(&mut self)
        requires
            old(self).wf(),
        ensures
            final(self).wf(),
            final(self)@ == old(self)@.without_word(),
    {
        let v = chars_of(self.input());
        let n: usize = v.len();
        let at: usize = if self.caret < n {
            self.caret
        } else {
            n
        };
        let head = chars_of(&trim_end(&string_of(cut_out(&v, 0, at))));
        let ghost h = text::trimmed_end(v@.take(at as int));
        assert(v@.subrange(0, at as int) =~= v@.take(at as int));
        assert(head@ == h);
        let mut cut: usize = head.len();
        while cut > 0 && head[cut - 1] != ' '
            invariant
                cut <= head@.len(),
                after_last_space(head@, cut as int) == after_last_space(
                    head@,
                    head@.len() as int,
                ),
            decreases cut,
        {
            cut -= 1;
        }
        let mut s = string_of(cut_out(&v, 0, cut));
        s.append(&string_of(cut_out(&v, at, n)));
        assert(v@.subrange(0, cut as int) =~= v@.take(cut as int));
        assert(v@.subrange(at as int, n as int) =~= v@.skip(at as int));
        self.type_in(s, cut);
    }

    #[verifier::spinoff_prover]
    #[verifier::rlimit(60)]
    fn on_key_editing(&mut self, key: Key, now: u64)
        requires
            old(self).wf(),
        ensures
            final(self).wf(),
            final(self)@ == old(self)@.pressed_editing(key, now),
    {
        match key.code {
            KeyCode::Enter => {
                self.mode = Mode::Browsing;
                if self.tab == Tab::Search {
                    self.spawn_search();
                }
            },
            KeyCode::Esc => {
                self.mode = Mode::Browsing;
            },
            KeyCode::Char(c) => {
                if key.ctrl && c == 'u' {
                    let empty = String::new();
                    assert(empty@ =~= seq![]);
                    self.type_in(empty, 0);
                } else if key.ctrl && c == 'w' {
                    self.delete_word();
                } else {
                    self.insert_char(c);
                }
            },
            KeyCode::Backspace => {
                if self.caret > 0 {
                    let at: usize = self.caret - 1;
                    self.remove_char(at, at);
                }
            },
            KeyCode::Delete => {
                if self.caret < chars_of(self.input()).len() {
                    let at: usize = self.caret;
                    self.remove_char(at, at);
                }
            },
            KeyCode::Left => {
                self.caret = if self.caret > 0 {
                    self.caret - 1
                } else {
                    0
                };
            },
            KeyCode::Right => {
                let len: usize = chars_of(self.input()).len();
                self.caret = if self.caret < len {
                    self.caret + 1
                } else {
                    len
                };
            },
            KeyCode::Home => {
                self.caret = 0;
            },
            KeyCode::End => {
                self.caret = chars_of(self.input()).len();
            },
            KeyCode::Down => self.move_selection(1, now),
            KeyCode::Up => self.move_selection(-1, now),
            _ => {},
        }
    }
}

// ---------------------------------------------------------------------------
// Sorting
// ---------------------------------------------------------------------------

/// What a list can be sorted by. A past download's year is not known.
pub open spec fn choices(tab: Tab) -> Seq<Order> {
    match tab {
        Tab::Search => seq![Order::Natural, Order::Title, Order::Author, Order::Year, Order::Size],
        Tab::Library => seq![Order::Natural, Order::Title, Order::Author, Order::Size],
    }
}

pub fn sort_choices(tab: Tab) -> (r: Vec<Order>)
    ensures
        r@ == choices(tab),
{
    match tab {
        Tab::Search => vec![
            Order::Natural,
            Order::Title,
            Order::Author,
            Order::Year,
            Order::Size,
        ],
        Tab::Library => vec![Order::Natural, Order::Title, Order::Author, Order::Size],
    }
}

/// The place of a choice among those there are.
pub open spec fn choice_at(tab: Tab, order: Order) -> usize {
    match order {
        Order::Natural => 0,
        Order::Title => 1,
        Order::Author => 2,
        Order::Year => 3,
        Order::Size => match tab {
            Tab::Search => 4,
            Tab::Library => 3,
        },
    }
}

fn find_choice(tab: Tab, order: Order) -> (r: usize)
    ensures
        r == choice_at(tab, order),
{
    match order {
        Order::Natural => 0,
        Order::Title => 1,
        Order::Author => 2,
        Order::Year => 3,
        Order::Size => match tab {
            Tab::Search => 4,
            Tab::Library => 3,
        },
    }
}

impl AppView {
    /// How the list of the tab is sorted.
    pub open spec fn current_sorting(self) -> Sorting {
        match self.tab {
            Tab::Search => self.sorting,
            Tab::Library => self.shelving,
        }
    }

    /// The list of the tab sorted anew.
    #[verifier::opaque]
    pub open spec fn resorted(self, s: Sorting, now: u64) -> AppView {
        match self.tab {
            Tab::Search => AppView { sorting: s, ..self }.refined(now),
            Tab::Library => AppView { shelving: s, ..self }.refiltered(),
        }
    }

    /// The list of the tab turned round.
    pub open spec fn reversed(self, now: u64) -> AppView {
        let s = self.current_sorting();
        self.resorted(Sorting { backwards: !s.backwards, ..s }, now)
    }

    /// The menu of what to sort by, on what the list is sorted by now.
    pub open spec fn menu_opened(self) -> AppView {
        AppView {
            mode: Mode::Sorting,
            menu: choice_at(self.tab, self.current_sorting().order),
            ..self
        }
    }

    /// The highlighted choice taken. Choosing what the list is sorted by already
    /// keeps its direction; anything else starts in its own.
    pub open spec fn order_chosen(self, now: u64) -> AppView {
        let closed = AppView { mode: Mode::Browsing, ..self };
        let all = choices(self.tab);
        if self.menu < all.len() && all[self.menu as int] != self.current_sorting().order {
            closed.resorted(Sorting { order: all[self.menu as int], backwards: false }, now)
        } else {
            closed
        }
    }

    /// A key pressed over the menu of what to sort by.
    pub open spec fn pressed_sorting(self, key: Key, now: u64) -> AppView {
        match key.code {
            KeyCode::Up => self.menu_moved(true),
            KeyCode::Down => self.menu_moved(false),
            KeyCode::Left => self.reversed(now),
            KeyCode::Right => self.reversed(now),
            KeyCode::Enter => self.order_chosen(now),
            KeyCode::Char(c) => if c == 'k' {
                self.menu_moved(true)
            } else if c == 'j' {
                self.menu_moved(false)
            } else {
                AppView { mode: Mode::Browsing, ..self }
            },
            _ => AppView { mode: Mode::Browsing, ..self },
        }
    }

    /// The highlight of the menu one up or down, within it.
    pub open spec fn menu_moved(self, up: bool) -> AppView {
        AppView {
            menu: if up {
                if self.menu > 0 {
                    (self.menu - 1) as usize
                } else {
                    0
                }
            } else if self.menu + 1 < choices(self.tab).len() {
                (self.menu + 1) as usize
            } else {
                self.menu
            },
            ..self
        }
    }
}

impl App {
    fn current_order(&self) -> (r: Sorting)
        ensures
            r == self@.current_sorting(),
    {
        match self.tab {
            Tab::Search => self.sorting,
            Tab::Library => self.shelving,
        }
    }

    /// Sort the list of the tab.
    pub fn sort_by(&mut self, s: Sorting, now: u64)
        requires
            old(self).wf(),
        ensures
            final(self).wf(),
            final(self)@ == old(self)@.resorted(s, now),
    {
        proof {
            reveal(AppView::resorted);
        }
        match self.tab {
            Tab::Search => {
                self.sorting = s;
                self.refine(now);
            },
            Tab::Library => {
                self.shelving = s;
                self.refilter();
            },
        }
    }

    /// Turn the list of the tab round.
    pub fn reverse_order(&mut self, now: u64)
        requires
            old(self).wf(),
        ensures
            final(self).wf(),
            final(self)@ == old(self)@.reversed(now),
    {
        let s = self.current_order();
        self.sort_by(Sorting { order: s.order, backwards: !s.backwards }, now);
    }

    fn open_menu(&mut self)
        requires
            old(self).wf(),
        ensures
            final(self).wf(),
            final(self)@ == old(self)@.menu_opened(),
    {
        self.menu = find_choice(self.tab, self.current_order().order);
        self.mode = Mode::Sorting;
    }

    fn choose_order(&mut self, now: u64)
        requires
            old(self).wf(),
        ensures
            final(self).wf(),
            final(self)@ == old(self)@.order_chosen(now),
    {
        let all = sort_choices(self.tab);
        let current = self.current_order().order;
        self.mode = Mode::Browsing;
        if self.menu < all.len() && all[self.menu] != current {
            self.sort_by(Sorting { order: all[self.menu], backwards: false }, now);
        }
    }

    fn move_menu(&mut self, up: bool)
        requires
            old(self).wf(),
        ensures
            final(self).wf(),
            final(self)@ == old(self)@.menu_moved(up),
    {
        let n: usize = sort_choices(self.tab).len();
        if up {
            self.menu = self.menu.saturating_sub(1);
        } else if n > 0 && self.menu < n - 1 {
            self.menu += 1;
        }
    }

    fn on_key_sorting(&mut self, key: Key, now: u64)
        requires
            old(self).wf(),
        ensures
            final(self).wf(),
            final(self)@ == old(self)@.pressed_sorting(key, now),
    {
        match key.code {
            KeyCode::Up => self.move_menu(true),
            KeyCode::Down => self.move_menu(false),
            KeyCode::Left => self.reverse_order(now),
            KeyCode::Right => self.reverse_order(now),
            KeyCode::Enter => self.choose_order(now),
            KeyCode::Char(c) => {
                if c == 'k' {
                    self.move_menu(true);
                } else if c == 'j' {
                    self.move_menu(false);
                } else {
                    self.mode = Mode::Browsing;
                }
            },
            _ => {
                self.mode = Mode::Browsing;
            },
        }
    }
}

// ---------------------------------------------------------------------------
// Keys
// ---------------------------------------------------------------------------

impl AppView {
    /// A key pressed over the results.
    pub open spec fn pressed_results(self, key: Key, now: u64, past: Seq<Entry>) -> AppView {
        let some = self.visible.len() > 0;
        match key.code {
            KeyCode::Esc => AppView { quit: true, ..self },
            KeyCode::Down => self.moved(1, now),
            KeyCode::Up => self.moved(-1, now),
            KeyCode::PageDown => self.moved(10, now),
            KeyCode::PageUp => self.moved(-10, now),
            KeyCode::Home => if some {
                self.at_row(0, now)
            } else {
                self
            },
            KeyCode::End => if some {
                self.at_row((self.visible.len() - 1) as usize, now)
            } else {
                self
            },
            KeyCode::Enter => self.fetching(),
            KeyCode::Char(c) => if c == 'q' {
                AppView { quit: true, ..self }
            } else if c == '/' || c == 'i' {
                AppView { mode: Mode::Editing, caret: self.query.len() as usize, ..self }
            } else if c == '?' {
                AppView { mode: Mode::Help, ..self }
            } else if c == 'j' {
                self.moved(1, now)
            } else if c == 'k' {
                self.moved(-1, now)
            } else if c == 'g' && some {
                self.at_row(0, now)
            } else if c == 'G' && some {
                self.at_row((self.visible.len() - 1) as usize, now)
            } else if c == ' ' {
                self.mark_turned().moved(1, now)
            } else if c == 'a' || c == 'A' {
                self.all_turned()
            } else if c == 'e' {
                self.cycled(true, 1, now)
            } else if c == 'E' {
                self.cycled(true, -1, now)
            } else if c == 'l' {
                self.cycled(false, 1, now)
            } else if c == 'L' {
                self.cycled(false, -1, now)
            } else if c == 'x' {
                self.unfiltered(now)
            } else if c == 'r' {
                self.searching()
            } else if c == 'm' {
                self.resolving(true)
            } else if c == 'o' {
                self.launched_result(false, past)
            } else if c == 'f' {
                self.launched_result(true, past)
            } else if c == 'y' {
                self.copied()
            } else if c == 's' {
                self.menu_opened()
            } else if c == 'S' {
                self.reversed(now)
            } else if c == 'h' {
                self.showing(Tab::Library, now, past)
            } else {
                self
            },
            _ => self,
        }
    }

    /// A key pressed over the library. It is a peer of the search tab, not a
    /// detour off it, so `q` means the same thing on both.
    pub open spec fn pressed_library(self, key: Key, now: u64, past: Seq<Entry>) -> AppView {
        let some = self.shown.len() > 0;
        match key.code {
            KeyCode::Esc => AppView { quit: true, ..self },
            KeyCode::Down => self.moved_library(1, now),
            KeyCode::Up => self.moved_library(-1, now),
            KeyCode::PageDown => self.moved_library(10, now),
            KeyCode::PageUp => self.moved_library(-10, now),
            KeyCode::Home => if some {
                self.at_library_row(0, now)
            } else {
                self
            },
            KeyCode::End => if some {
                self.at_library_row((self.shown.len() - 1) as usize, now)
            } else {
                self
            },
            KeyCode::Enter => self.launched_entry(false),
            KeyCode::Char(c) => if c == 'q' {
                AppView { quit: true, ..self }
            } else if c == '/' || c == 'i' {
                AppView { mode: Mode::Editing, caret: self.filter.len() as usize, ..self }
            } else if c == '?' {
                AppView { mode: Mode::Help, ..self }
            } else if c == 'j' {
                self.moved_library(1, now)
            } else if c == 'k' {
                self.moved_library(-1, now)
            } else if c == 'g' && some {
                self.at_library_row(0, now)
            } else if c == 'G' && some {
                self.at_library_row((self.shown.len() - 1) as usize, now)
            } else if c == 'o' {
                self.launched_entry(false)
            } else if c == 'f' {
                self.launched_entry(true)
            } else if c == 'd' {
                self.forgetting()
            } else if c == 'r' {
                AppView {
                    status: text::decimal(past.len()) + " book(s)"@,
                    ..self.reloaded(past)
                }
            } else if c == 'y' {
                self.copied()
            } else if c == 's' {
                self.menu_opened()
            } else if c == 'S' {
                self.reversed(now)
            } else {
                self
            },
            _ => self,
        }
    }

    /// A key pressed. `past` is the download history as it stands on disk.
    pub open spec fn pressed(self, key: Key, now: u64, past: Seq<Entry>) -> AppView {
        // Ctrl-C always quits, whatever is on screen.
        if key.ctrl && key.code == KeyCode::Char('c') {
            AppView { quit: true, ..self }
        } else if key.code == KeyCode::Tab || key.code == KeyCode::BackTab {
            // Switching tabs works from everywhere, including mid-typing.
            AppView {
                mode: if self.mode == Mode::Editing {
                    Mode::Editing
                } else {
                    Mode::Browsing
                },
                ..self
            }.showing(self.tab.beside(), now, past)
        } else if key.code == KeyCode::Char('1') && self.mode != Mode::Editing {
            // Direct jumps, for when you know where you are going. Not while
            // typing, where a digit is a digit.
            AppView { mode: Mode::Browsing, ..self }.showing(Tab::Search, now, past)
        } else if key.code == KeyCode::Char('2') && self.mode != Mode::Editing {
            AppView { mode: Mode::Browsing, ..self }.showing(Tab::Library, now, past)
        } else {
            match self.mode {
                Mode::Help => AppView { mode: Mode::Browsing, ..self },
                Mode::Editing => self.pressed_editing(key, now),
                Mode::Sorting => self.pressed_sorting(key, now),
                Mode::Browsing => match self.tab {
                    Tab::Search => self.pressed_results(key, now, past),
                    Tab::Library => self.pressed_library(key, now, past),
                },
            }
        }
    }
}

impl App {
    #[verifier::spinoff_prover]
    #[verifier::rlimit(60)]
    fn on_char_results(&mut self, c: char, now: u64, past: &Vec<Entry>)
        requires
            old(self).wf(),
        ensures
            final(self).wf(),
            final(self)@ == old(self)@.pressed_results(
                Key { code: KeyCode::Char(c), ctrl: false },
                now,
                past@,
            ),
    {
        let n: usize = self.visible.len();
        if c == 'q' {
            self.quit = true;
        } else if c == '/' || c == 'i' {
            self.mode = Mode::Editing;
            self.caret = chars_of(&self.query).len();
        } else if c == '?' {
            self.mode = Mode::Help;
        } else if c == 'j' {
            self.move_by(1, now);
        } else if c == 'k' {
            self.move_by(-1, now);
        } else if c == 'g' && n > 0 {
            self.jump(0, now);
        } else if c == 'G' && n > 0 {
            self.jump(n - 1, now);
        } else if c == ' ' {
            self.turn_mark();
            self.move_by(1, now);
        } else if c == 'a' || c == 'A' {
            self.turn_all();
        } else if c == 'e' {
            self.cycle_filter(true, 1, now);
        } else if c == 'E' {
            self.cycle_filter(true, -1, now);
        } else if c == 'l' {
            self.cycle_filter(false, 1, now);
        } else if c == 'L' {
            self.cycle_filter(false, -1, now);
        } else if c == 'x' {
            self.clear_filters(now);
        } else if c == 'r' {
            self.spawn_search();
        } else if c == 'm' {
            self.spawn_mirror_resolve(true);
        } else if c == 'o' {
            self.launch_result(false, past);
        } else if c == 'f' {
            self.launch_result(true, past);
        } else if c == 'y' {
            self.copy_md5();
        } else if c == 's' {
            self.open_menu();
        } else if c == 'S' {
            self.reverse_order(now);
        } else if c == 'h' {
            self.show(Tab::Library, now, past);
        }
    }

    #[verifier::spinoff_prover]
    #[verifier::rlimit(60)]
    fn on_key_results(&mut self, key: Key, now: u64, past: &Vec<Entry>)
        requires
            old(self).wf(),
        ensures
            final(self).wf(),
            final(self)@ == old(self)@.pressed_results(key, now, past@),
    {
        let n: usize = self.visible.len();
        match key.code {
            KeyCode::Esc => {
                self.quit = true;
            },
            KeyCode::Down => self.move_by(1, now),
            KeyCode::Up => self.move_by(-1, now),
            KeyCode::PageDown => self.move_by(10, now),
            KeyCode::PageUp => self.move_by(-10, now),
            KeyCode::Home => {
                if n > 0 {
                    self.jump(0, now);
                }
            },
            KeyCode::End => {
                if n > 0 {
                    self.jump(n - 1, now);
                }
            },
            KeyCode::Enter => self.spawn_downloads(),
            KeyCode::Char(c) => self.on_char_results(c, now, past),
            _ => {},
        }
    }

    #[verifier::spinoff_prover]
    #[verifier::rlimit(60)]
    fn on_char_library(&mut self, c: char, now: u64, past: &Vec<Entry>)
        requires
            old(self).wf(),
        ensures
            final(self).wf(),
            final(self)@ == old(self)@.pressed_library(
                Key { code: KeyCode::Char(c), ctrl: false },
                now,
                past@,
            ),
    {
        let n: usize = self.shown.len();
        if c == 'q' {
            self.quit = true;
        } else if c == '/' || c == 'i' {
            self.mode = Mode::Editing;
            self.caret = chars_of(&self.filter).len();
        } else if c == '?' {
            self.mode = Mode::Help;
        } else if c == 'j' {
            self.move_library_by(1, now);
        } else if c == 'k' {
            self.move_library_by(-1, now);
        } else if c == 'g' && n > 0 {
            self.jump_library(0, now);
        } else if c == 'G' && n > 0 {
            self.jump_library(n - 1, now);
        } else if c == 'o' {
            self.launch_selected(false);
        } else if c == 'f' {
            self.launch_selected(true);
        } else if c == 'd' {
            self.forget_selected();
        } else if c == 'r' {
            self.reload_library(past);
            let mut m = dec(past.len() as u64);
            m.append(" book(s)");
            self.status = m;
        } else if c == 'y' {
            self.copy_md5();
        } else if c == 's' {
            self.open_menu();
        } else if c == 'S' {
            self.reverse_order(now);
        }
    }

    fn on_key_library(&mut self, key: Key, now: u64, past: &Vec<Entry>)
        requires
            old(self).wf(),
        ensures
            final(self).wf(),
            final(self)@ == old(self)@.pressed_library(key, now, past@),
    {
        let n: usize = self.shown.len();
        match key.code {
            KeyCode::Esc => {
                self.quit = true;
            },
            KeyCode::Down => self.move_library_by(1, now),
            KeyCode::Up => self.move_library_by(-1, now),
            KeyCode::PageDown => self.move_library_by(10, now),
            KeyCode::PageUp => self.move_library_by(-10, now),
            KeyCode::Home => {
                if n > 0 {
                    self.jump_library(0, now);
                }
            },
            KeyCode::End => {
                if n > 0 {
                    self.jump_library(n - 1, now);
                }
            },
            KeyCode::Enter => self.launch_selected(false),
            KeyCode::Char(c) => self.on_char_library(c, now, past),
            _ => {},
        }
    }

    /// Act on a key. `past` is the download history as it stands on disk.
    #[verifier::spinoff_prover]
    #[verifier::rlimit(60)]
    pub fn on_key(&mut self, key: Key, now: u64, past: &Vec<Entry>)
        requires
            old(self).wf(),
        ensures
            final(self).wf(),
            final(self)@ == old(self)@.pressed(key, now, past@),
    {
        if key.ctrl && key.code == KeyCode::Char('c') {
            self.quit = true;
            return;
        }
        if key.code == KeyCode::Tab || key.code == KeyCode::BackTab {
            if self.mode != Mode::Editing {
                self.mode = Mode::Browsing;
            }
            self.show(self.tab.other(), now, past);
            return;
        }
        if key.code == KeyCode::Char('1') && self.mode != Mode::Editing {
            self.mode = Mode::Browsing;
            self.show(Tab::Search, now, past);
            return;
        }
        if key.code == KeyCode::Char('2') && self.mode != Mode::Editing {
            self.mode = Mode::Browsing;
            self.show(Tab::Library, now, past);
            return;
        }
        match self.mode {
            Mode::Help => {
                self.mode = Mode::Browsing;
            },
            Mode::Editing => self.on_key_editing(key, now),
            Mode::Sorting => self.on_key_sorting(key, now),
            Mode::Browsing => match self.tab {
                Tab::Search => self.on_key_results(key, now, past),
                Tab::Library => self.on_key_library(key, now, past),
            },
        }
    }
}

// ---------------------------------------------------------------------------
// Events
// ---------------------------------------------------------------------------

/// How many bytes a character takes in UTF-8.
pub open spec fn byte_width(c: char) -> nat {
    if (c as u32) < 0x80 {
        1
    } else if (c as u32) < 0x800 {
        2
    } else if (c as u32) < 0x1_0000 {
        3
    } else {
        4
    }
}

/// How many bytes the characters before position `e` take.
pub open spec fn byte_length(s: Seq<char>, e: int) -> nat
    decreases e,
{
    if e <= 0 {
        0
    } else {
        byte_length(s, e - 1) + byte_width(s[e - 1])
    }
}

/// How many characters from position `i` on still fit within so many bytes.
pub open spec fn fitting(s: Seq<char>, room: int, i: int) -> int
    decreases s.len() - i,
{
    if 0 <= i < s.len() && byte_length(s, i + 1) <= room {
        fitting(s, room, i + 1)
    } else {
        i
    }
}

/// The first line of a message, trimmed, and cut to two hundred bytes between
/// characters.
pub open spec fn headline(message: Seq<char>) -> Seq<char> {
    let ls = text::lines_of(message);
    let line = text::trimmed(
        if ls.len() > 0 {
            ls[0]
        } else {
            message
        },
    );
    if byte_length(line, line.len() as int) > 200 {
        line.take(fitting(line, 200, 0)) + "…"@
    } else {
        line
    }
}

fn width_in_bytes(c: char) -> (r: usize)
    ensures
        r == byte_width(c),
        r <= 4,
{
    let n = c as u32;
    if n < 0x80 {
        1
    } else if n < 0x800 {
        2
    } else if n < 0x1_0000 {
        3
    } else {
        4
    }
}

proof fn lemma_byte_length_grows(s: Seq<char>, a: int, b: int)
    requires
        a <= b,
    ensures
        byte_length(s, a) <= byte_length(s, b),
    decreases b,
{
    if b > 0 && a < b {
        lemma_byte_length_grows(s, a, b - 1);
    }
}

/// Error chains get long; the pane has one line for them.
pub fn first_line(message: &str) -> (r: String)
    ensures
        r@ == headline(message@),
{
    let ls = lines(message);
    let line = if ls.len() > 0 {
        assert(text::texts(ls@)[0] == ls@[0]@);
        trim(&ls[0])
    } else {
        trim(message)
    };
    let v = chars_of(&line);
    let mut used: usize = 0;
    let mut i: usize = 0;
    while i < v.len()
        invariant
            i <= v@.len(),
            v@ == line@,
            line@ == text::trimmed(
                if text::lines_of(message@).len() > 0 {
                    text::lines_of(message@)[0]
                } else {
                    message@
                },
            ),
            used == byte_length(v@, i as int),
            used <= 200,
            fitting(v@, 200, 0) == fitting(v@, 200, i as int),
        decreases v@.len() - i,
    {
        let w = width_in_bytes(v[i]);
        if used + w > 200 {
            proof {
                lemma_byte_length_grows(v@, i + 1, v@.len() as int);
            }
            let mut out = string_of(cut_out(&v, 0, i));
            assert(v@.subrange(0, i as int) =~= v@.take(i as int));
            out.append("…");
            return out;
        }
        used = used + w;
        i += 1;
    }
    line
}

/// A download that is not over.
pub open spec fn active(j: JobView) -> bool {
    match j {
        JobView::Queued => true,
        JobView::Running { .. } => true,
        _ => false,
    }
}

pub open spec fn any_active(jobs: Map<Seq<char>, JobView>) -> bool {
    exists|k: Seq<char>| #[trigger] jobs.contains_key(k) && active(jobs[k])
}

/// Covers with the blanks dropped.
pub open spec fn revived(covers: Map<Seq<char>, SlotView>) -> Map<Seq<char>, SlotView> {
    Map::new(
        |k: Seq<char>| covers.contains_key(k) && !(covers[k] is Nothing),
        |k: Seq<char>| covers[k],
    )
}

/// What the interface makes of a cover. iTerm2 takes the encoded file and wants
/// nothing decoded, kitty takes either, and half blocks can only draw pixels, so
/// a cover it cannot decode is no cover at all.
pub open spec fn slot_for(protocol: Protocol, c: Option<cover::CoverView>) -> SlotView {
    match c {
        None => SlotView::Nothing,
        Some(c) => match protocol {
            Protocol::ITerm2 => SlotView::Ready(ArtView { encoded: c.encoded, pixels: None }),
            Protocol::Kitty => SlotView::Ready(
                ArtView { encoded: c.encoded, pixels: cover::pixels_of(c) },
            ),
            Protocol::Blocks => match cover::pixels_of(c) {
                Some(p) => SlotView::Ready(ArtView { encoded: seq![], pixels: Some(p) }),
                None => SlotView::Nothing,
            },
            Protocol::Nothing => SlotView::Nothing,
        },
    }
}

/// Something that happened.
#[derive(Debug)]
pub enum Ev {
    Key(Key),
    /// The terminal changed size.
    Redraw,
    /// Mirror selection finished, with the ranked pool or a failure.
    Mirrors(Result<Vec<String>, String>),
    /// A search finished, with the results and the host that served them.
    Results(Result<(Vec<Book>, String), String>),
    Progress { md5: String, done: u64, total: Option<u64> },
    Finished { md5: String, outcome: Result<String, String> },
    /// A cover lookup finished; there may be none.
    Cover { md5: String, result: Result<Option<Cover>, String> },
    /// A file was handed over, or could not be.
    Launched { said: String, outcome: Result<(), String> },
    /// A past download was forgotten, or could not be.
    Forgotten { name: String, outcome: Result<(), String> },
}

pub open spec fn label_of(mirrors: Seq<Seq<char>>) -> Seq<char> {
    if mirrors.len() > 0 {
        match net::uri_host(mirrors[0]) {
            Some(h) => h,
            None => "none"@,
        }
    } else {
        "none"@
    }
}

pub open spec fn found_status(total: nat, shown: nat) -> Seq<char> {
    if total == 0 {
        "nothing found — try fewer words"@
    } else if shown < total {
        text::decimal(shown) + " of "@ + text::decimal(total) + " match the filters"@
    } else {
        text::decimal(total) + " result(s)"@
    }
}

impl AppView {
    /// A mirror pool found. A library cover that came up empty while there was no
    /// mirror to ask deserves another go now that there is one: those blanks are
    /// dropped and the selection re-armed so it looks again.
    pub open spec fn with_mirrors(self, mirrors: Seq<Seq<char>>, now: u64) -> AppView {
        let first = self.mirrors.len() == 0 && mirrors.len() > 0;
        let ready = AppView {
            busy: false,
            mirror_label: label_of(mirrors),
            mirrors,
            status: text::decimal(mirrors.len()) + " mirror(s) available"@,
            ..self
        };
        let searched = if self.pending_search {
            AppView { pending_search: false, ..ready }.searching()
        } else {
            ready
        };
        if first {
            AppView { covers: revived(searched.covers), ..searched }.stirred(now)
        } else {
            searched
        }
    }

    /// No mirror found.
    pub open spec fn without_mirrors(self, e: Seq<char>) -> AppView {
        AppView {
            busy: false,
            mirror_label: "unavailable"@,
            status: "no mirror available"@,
            error: Some(headline(e)),
            ..self
        }
    }

    /// Results in. The filters stand.
    pub open spec fn with_results(self, books: Seq<Book>, host: Seq<char>, now: u64) -> AppView {
        let fresh = AppView {
            busy: false,
            mirror_label: host,
            marked: Seq::new(books.len(), |i: int| false),
            row: None,
            results: books,
            ..self
        }.refined(now);
        AppView {
            status: found_status(fresh.results.len(), fresh.visible.len()),
            mode: Mode::Browsing,
            ..fresh
        }
    }

    pub open spec fn without_results(self, e: Seq<char>) -> AppView {
        AppView { busy: false, status: "search failed"@, error: Some(headline(e)), ..self }
    }

    /// A download saved. The book is in the library now; the tab should say so
    /// without being asked to reload.
    pub open spec fn saved(self, md5: Seq<char>, name: Seq<char>, past: Seq<Entry>) -> AppView {
        let there = AppView { status: "saved "@ + name, ..self }.reloaded(past);
        let jobs = there.jobs.insert(md5, JobView::Saved(name));
        AppView { jobs, downloading: any_active(jobs), ..there }
    }

    pub open spec fn failed(self, md5: Seq<char>, e: Seq<char>) -> AppView {
        let jobs = self.jobs.insert(md5, JobView::Failed(headline(e)));
        AppView { error: Some(headline(e)), jobs, downloading: any_active(jobs), ..self }
    }

    /// Something happened. `past` is the download history as it stands on disk.
    pub open spec fn handled(self, ev: Ev, now: u64, past: Seq<Entry>) -> AppView {
        match ev {
            Ev::Key(key) => self.pressed(key, now, past),
            // A resize moves everything, so whatever was painted is now in the
            // wrong place and has to be placed again.
            Ev::Redraw => self.erased(),
            Ev::Mirrors(found) => self.resolved(found, now),
            Ev::Results(found) => self.found(found, now),
            Ev::Progress { md5, done, total } => AppView {
                jobs: self.jobs.insert(md5@, JobView::Running { done, total }),
                ..self
            },
            Ev::Finished { md5, outcome } => self.finished(md5@, outcome, past),
            Ev::Cover { md5, result } => self.covered(md5@, result),
            Ev::Launched { said, outcome } => self.launched(said@, outcome),
            Ev::Forgotten { name, outcome } => self.forgotten(name@, outcome, past),
        }
    }

    /// Whether a key asks for the download history.
    pub open spec fn key_consults(self, key: Key) -> bool {
        if key.ctrl && key.code == KeyCode::Char('c') {
            false
        } else if key.code == KeyCode::Tab || key.code == KeyCode::BackTab {
            self.tab == Tab::Search
        } else {
            match key.code {
                KeyCode::Char(c) => if c == '1' && self.mode != Mode::Editing {
                    false
                } else if c == '2' && self.mode != Mode::Editing {
                    self.tab == Tab::Search
                } else {
                    self.mode == Mode::Browsing && match self.tab {
                        Tab::Search => c == 'o' || c == 'f' || c == 'h',
                        Tab::Library => c == 'r',
                    }
                },
                _ => false,
            }
        }
    }

    /// Whether what happened asks for the download history as it stands on disk.
    pub open spec fn consults(self, ev: Ev) -> bool {
        match ev {
            Ev::Key(key) => self.key_consults(key),
            Ev::Finished { md5, outcome } => outcome is Ok,
            Ev::Forgotten { name, outcome } => outcome is Ok,
            _ => false,
        }
    }

    pub open spec fn resolved(self, found: Result<Vec<String>, String>, now: u64) -> AppView {
        match found {
            Ok(m) => self.with_mirrors(text::texts(m@), now),
            Err(e) => self.without_mirrors(e@),
        }
    }

    pub open spec fn found(
        self,
        found: Result<(Vec<Book>, String), String>,
        now: u64,
    ) -> AppView {
        match found {
            Ok((books, host)) => self.with_results(books@, host@, now),
            Err(e) => self.without_results(e@),
        }
    }

    /// A download over. The worker finishes the whole batch before going quiet,
    /// so the flag clears once nothing is left queued or running.
    pub open spec fn finished(
        self,
        md5: Seq<char>,
        outcome: Result<String, String>,
        past: Seq<Entry>,
    ) -> AppView {
        match outcome {
            Ok(name) => self.saved(md5, name@, past),
            Err(e) => self.failed(md5, e@),
        }
    }

    /// A cover lookup over. A cover that will not come is not an error worth
    /// putting in front of someone who asked for a book.
    pub open spec fn covered(
        self,
        md5: Seq<char>,
        result: Result<Option<Cover>, String>,
    ) -> AppView {
        AppView {
            covers: self.covers.insert(
                md5,
                match result {
                    Ok(c) => slot_for(self.protocol, cover::cover_view(c)),
                    Err(_) => SlotView::Nothing,
                },
            ),
            ..self
        }
    }

    /// A file handed over, or not.
    pub open spec fn launched(self, said: Seq<char>, outcome: Result<(), String>) -> AppView {
        match outcome {
            Ok(_) => AppView { error: None, status: said, ..self },
            Err(e) => AppView { error: Some(headline(e@)), ..self },
        }
    }

    /// A past download forgotten, or not.
    pub open spec fn forgotten(
        self,
        name: Seq<char>,
        outcome: Result<(), String>,
        past: Seq<Entry>,
    ) -> AppView {
        match outcome {
            Ok(_) => AppView {
                status: "forgot "@ + name + " — the file is still there"@,
                ..self.reloaded(past)
            },
            Err(e) => AppView { error: Some(headline(e@)), ..self },
        }
    }
}

fn jobs_active(jobs: &Keyed<Job>) -> (r: bool)
    requires
        jobs.wf(),
    ensures
        r == any_active(jobs@),
{
    proof {
        jobs.lemma_values();
    }
    let mut i: usize = 0;
    while i < jobs.entries.len()
        invariant
            i <= jobs.entries@.len(),
            forall|k: int|
                0 <= k < jobs.entries@.len() ==> jobs@.contains_key(
                    (#[trigger] jobs.entries@[k]).0@,
                ) && jobs@[jobs.entries@[k].0@] == jobs.entries@[k].1@,
            forall|k: int| 0 <= k < i ==> !active((#[trigger] jobs.entries@[k]).1@),
        decreases jobs.entries@.len() - i,
    {
        let running = match jobs.entries[i].1 {
            Job::Queued => true,
            Job::Running { .. } => true,
            _ => false,
        };
        if running {
            assert(jobs@.contains_key(jobs.entries@[i as int].0@));
            return true;
        }
        i += 1;
    }
    proof {
        if any_active(jobs@) {
            let k = choose|k: Seq<char>| #[trigger] jobs@.contains_key(k) && active(jobs@[k]);
            let j = choose|j: int|
                0 <= j < jobs.entries@.len() && (#[trigger] jobs.entries@[j]).0@ == k;
            assert(jobs@[jobs.entries@[j].0@] == jobs.entries@[j].1@);
        }
    }
    false
}

fn drop_blanks(covers: Keyed<Slot>) -> (r: Keyed<Slot>)
    requires
        covers.wf(),
    ensures
        r.wf(),
        r@ == revived(covers@),
{
    let ghost all = covers.entries@;
    let ghost m = covers@;
    proof {
        covers.lemma_values();
    }
    let mut left = covers.entries;
    let mut out: Keyed<Slot> = Keyed::new();
    while left.len() > 0
        invariant
            left@.len() <= all.len(),
            left@ == all.take(left@.len() as int),
            out.wf(),
            crate::keyed::distinct(all),
            forall|i: int|
                0 <= i < all.len() ==> m.contains_key((#[trigger] all[i]).0@) && m[all[i].0@]
                    == all[i].1@,
            forall|k: Seq<char>| #[trigger]
                out@.contains_key(k) ==> m.contains_key(k) && out@[k] == m[k] && !(m[k] is Nothing),
            forall|i: int|
                left@.len() <= i < all.len() && !((#[trigger] all[i]).1@ is Nothing)
                    ==> out@.contains_key(all[i].0@),
        decreases left@.len(),
    {
        let ghost n = left@.len();
        match left.pop() {
            Some((key, slot)) => {
                assert((key, slot) == all[n - 1]);
                let blank = match slot {
                    Slot::Nothing => true,
                    _ => false,
                };
                if !blank {
                    out.insert(key, slot);
                }
            },
            None => {},
        }
        assert(left@ =~= all.take(n - 1));
    }
    proof {
        let want = revived(m);
        assert forall|k: Seq<char>| out@.contains_key(k) == want.contains_key(k) by {
            if want.contains_key(k) {
                let i = choose|i: int| 0 <= i < all.len() && (#[trigger] all[i]).0@ == k;
                assert(m[all[i].0@] == all[i].1@);
                assert(out@.contains_key(all[i].0@));
            }
        }
        assert(out@ =~= want);
    }
    out
}

fn make_slot(protocol: Protocol, c: Option<Cover>) -> (r: Slot)
    ensures
        r@ == slot_for(protocol, cover::cover_view(c)),
{
    match c {
        None => Slot::Nothing,
        Some(c) => match protocol {
            Protocol::ITerm2 => Slot::Ready(Art { encoded: c.encoded, pixels: None }),
            Protocol::Kitty => {
                let pixels = c.pixels();
                Slot::Ready(Art { encoded: c.encoded, pixels })
            },
            Protocol::Blocks => match c.pixels() {
                Some(p) => {
                    let encoded: Vec<u8> = Vec::new();
                    assert(encoded@ =~= seq![]);
                    Slot::Ready(Art { encoded, pixels: Some(p) })
                },
                None => Slot::Nothing,
            },
            Protocol::Nothing => Slot::Nothing,
        },
    }
}

impl App {
    fn on_mirrors(&mut self, mirrors: Vec<String>, now: u64)
        requires
            old(self).wf(),
        ensures
            final(self).wf(),
            final(self)@ == old(self)@.with_mirrors(text::texts(mirrors@), now),
    {
        self.busy = false;
        let count: usize = mirrors.len();
        let mut label = "none".to_owned();
        if count > 0 {
            match parse_host(&mirrors[0]) {
                Some(h) => {
                    label = h;
                },
                None => {},
            }
            assert(text::texts(mirrors@)[0] == mirrors@[0]@);
        }
        self.mirror_label = label;
        let first = self.mirrors.len() == 0 && count > 0;
        self.mirrors = mirrors;
        let mut m = dec(count as u64);
        m.append(" mirror(s) available");
        self.status = m;
        if self.pending_search {
            self.pending_search = false;
            self.spawn_search();
        }
        if first {
            let mut covers: Keyed<Slot> = Keyed::new();
            std::mem::swap(&mut covers, &mut self.covers);
            self.covers = drop_blanks(covers);
            self.selection_moved(now);
        }
    }

    fn on_results(&mut self, books: Vec<Book>, host: String, now: u64)
        requires
            old(self).wf(),
        ensures
            final(self).wf(),
            final(self)@ == old(self)@.with_results(books@, host@, now),
    {
        self.busy = false;
        self.mirror_label = host;
        let mut marked: Vec<bool> = Vec::new();
        let mut i: usize = 0;
        while i < books.len()
            invariant
                i <= books@.len(),
                marked@ == Seq::new(i as nat, |k: int| false),
            decreases books@.len() - i,
        {
            marked.push(false);
            assert(marked@ =~= Seq::new((i + 1) as nat, |k: int| false));
            i += 1;
        }
        self.marked = marked;
        self.table.select(None);
        self.results = books;
        self.refine(now);
        let total: usize = self.results.len();
        let shown: usize = self.visible.len();
        self.status = if total == 0 {
            "nothing found — try fewer words".to_owned()
        } else if shown < total {
            let mut m = dec(shown as u64);
            m.append(" of ");
            m.append(&dec(total as u64));
            m.append(" match the filters");
            m
        } else {
            let mut m = dec(total as u64);
            m.append(" result(s)");
            m
        };
        self.mode = Mode::Browsing;
    }

    fn on_saved(&mut self, md5: String, name: String, past: &Vec<Entry>)
        requires
            old(self).wf(),
        ensures
            final(self).wf(),
            final(self)@ == old(self)@.saved(md5@, name@, past@),
    {
        let mut m = "saved ".to_owned();
        m.append(&name);
        self.status = m;
        self.reload_library(past);
        self.jobs.insert(md5, Job::Saved(name));
        self.downloading = jobs_active(&self.jobs);
    }

    fn on_failed(&mut self, md5: String, e: String)
        requires
            old(self).wf(),
        ensures
            final(self).wf(),
            final(self)@ == old(self)@.failed(md5@, e@),
    {
        self.error = Some(first_line(&e));
        self.jobs.insert(md5, Job::Failed(first_line(&e)));
        self.downloading = jobs_active(&self.jobs);
    }

    fn on_resolved(&mut self, found: Result<Vec<String>, String>, now: u64)
        requires
            old(self).wf(),
        ensures
            final(self).wf(),
            final(self)@ == old(self)@.resolved(found, now),
    {
        match found {
            Ok(mirrors) => self.on_mirrors(mirrors, now),
            Err(e) => {
                self.busy = false;
                self.mirror_label = "unavailable".to_owned();
                self.status = "no mirror available".to_owned();
                self.error = Some(first_line(&e));
            },
        }
    }

    fn on_found(&mut self, found: Result<(Vec<Book>, String), String>, now: u64)
        requires
            old(self).wf(),
        ensures
            final(self).wf(),
            final(self)@ == old(self)@.found(found, now),
    {
        match found {
            Ok((books, host)) => self.on_results(books, host, now),
            Err(e) => {
                self.busy = false;
                self.status = "search failed".to_owned();
                self.error = Some(first_line(&e));
            },
        }
    }

    fn on_finished(&mut self, md5: String, outcome: Result<String, String>, past: &Vec<Entry>)
        requires
            old(self).wf(),
        ensures
            final(self).wf(),
            final(self)@ == old(self)@.finished(md5@, outcome, past@),
    {
        match outcome {
            Ok(name) => self.on_saved(md5, name, past),
            Err(e) => self.on_failed(md5, e),
        }
    }

    fn on_cover(&mut self, md5: String, result: Result<Option<Cover>, String>)
        requires
            old(self).wf(),
        ensures
            final(self).wf(),
            final(self)@ == old(self)@.covered(md5@, result),
    {
        let slot = match result {
            Ok(c) => make_slot(self.protocol, c),
            Err(_) => Slot::Nothing,
        };
        self.covers.insert(md5, slot);
    }

    fn on_launched(&mut self, said: String, outcome: Result<(), String>)
        requires
            old(self).wf(),
        ensures
            final(self).wf(),
            final(self)@ == old(self)@.launched(said@, outcome),
    {
        match outcome {
            Ok(_) => {
                self.error = None;
                self.status = said;
            },
            Err(e) => {
                self.error = Some(first_line(&e));
            },
        }
    }

    fn on_forgotten(&mut self, name: String, outcome: Result<(), String>, past: &Vec<Entry>)
        requires
            old(self).wf(),
        ensures
            final(self).wf(),
            final(self)@ == old(self)@.forgotten(name@, outcome, past@),
    {
        match outcome {
            Ok(_) => {
                self.reload_library(past);
                let mut m = "forgot ".to_owned();
                m.append(&name);
                m.append(" — the file is still there");
                self.status = m;
            },
            Err(e) => {
                self.error = Some(first_line(&e));
            },
        }
    }

    fn on_progress(&mut self, md5: String, done: u64, total: Option<u64>)
        requires
            old(self).wf(),
        ensures
            final(self).wf(),
            final(self)@ == (AppView {
                jobs: old(self)@.jobs.insert(md5@, JobView::Running { done, total }),
                ..old(self)@
            }),
    {
        self.jobs.insert(md5, Job::Running { done, total });
    }

    fn key_consults_history(&self, key: Key) -> (r: bool)
        ensures
            r == self@.key_consults(key),
    {
        if key.ctrl && key.code == KeyCode::Char('c') {
            return false;
        }
        if key.code == KeyCode::Tab || key.code == KeyCode::BackTab {
            return self.tab == Tab::Search;
        }
        match key.code {
            KeyCode::Char(c) => {
                if c == '1' && self.mode != Mode::Editing {
                    false
                } else if c == '2' && self.mode != Mode::Editing {
                    self.tab == Tab::Search
                } else {
                    self.mode == Mode::Browsing && match self.tab {
                        Tab::Search => c == 'o' || c == 'f' || c == 'h',
                        Tab::Library => c == 'r',
                    }
                }
            },
            _ => false,
        }
    }

    /// Whether an event has to be handed over with the download history; any
    /// other is handled the same whatever the history holds.
    pub fn consults_history(&self, ev: &Ev) -> (r: bool)
        ensures
            r == self@.consults(*ev),
    {
        match ev {
            Ev::Key(key) => self.key_consults_history(*key),
            Ev::Finished { md5: _, outcome } => outcome.is_ok(),
            Ev::Forgotten { name: _, outcome } => outcome.is_ok(),
            _ => false,
        }
    }

    /// Act on an event. `past` is the download history as it stands on disk.
    pub fn handle(&mut self, ev: Ev, now: u64, past: &Vec<Entry>)
        requires
            old(self).wf(),
        ensures
            final(self).wf(),
            final(self)@ == old(self)@.handled(ev, now, past@),
    {
        match ev {
            Ev::Redraw => self.erase_cover(),
            Ev::Key(key) => self.on_key(key, now, past),
            Ev::Mirrors(found) => self.on_resolved(found, now),
            Ev::Results(found) => self.on_found(found, now),
            Ev::Progress { md5, done, total } => self.on_progress(md5, done, total),
            Ev::Finished { md5, outcome } => self.on_finished(md5, outcome, past),
            Ev::Cover { md5, result } => self.on_cover(md5, result),
            Ev::Launched { said, outcome } => self.on_launched(said, outcome),
            Ev::Forgotten { name, outcome } => self.on_forgotten(name, outcome, past),
        }
    }
}

// ---------------------------------------------------------------------------
// The beginning
// ---------------------------------------------------------------------------

impl AppView {
    /// A fresh session.
    pub open spec fn fresh(settings: Settings, query: Seq<char>, protocol: Protocol) -> AppView {
        AppView {
            settings,
            tab: Tab::Search,
            mode: if query.len() == 0 {
                Mode::Editing
            } else {
                Mode::Browsing
            },
            query,
            filter: seq![],
            caret: query.len() as usize,
            results: seq![],
            visible: seq![],
            sorting: order::as_it_came(),
            shelving: order::as_it_came(),
            menu: 0,
            fmt_filter: None,
            lang_filter: None,
            row: None,
            marked: seq![],
            jobs: Map::empty(),
            mirrors: seq![],
            mirror_label: "connecting…"@,
            status: "finding a working mirror"@,
            error: None,
            busy: true,
            downloading: false,
            pending_search: query.len() > 0,
            quit: false,
            library: seq![],
            shown: seq![],
            library_row: None,
            protocol,
            covers: Map::empty(),
            cover_due: None,
            painted: None,
            cover_area: None,
            actions: seq![],
        }
    }
}

impl App {
    /// Begin a session: with the box filled from `initial_query`, the library
    /// read up front so that the tab bar can say how many books are there before
    /// anybody goes looking, and a mirror to be found.
    pub fn new(
        settings: Settings,
        initial_query: Option<String>,
        protocol: Protocol,
        past: &Vec<Entry>,
    ) -> (r: Self)
        ensures
            r.wf(),
            r@ == AppView::fresh(
                settings,
                match initial_query {
                    Some(q) => q@,
                    None => seq![],
                },
                if settings.covers {
                    protocol
                } else {
                    Protocol::Nothing
                },
            ).reloaded(past@).resolving(settings.refresh_mirrors),
    {
        let query = match initial_query {
            Some(q) => q,
            None => String::new(),
        };
        assert(initial_query is None ==> query@ =~= seq![]);
        let refresh = settings.refresh_mirrors;
        let caret: usize = chars_of(&query).len();
        let pending = caret > 0;
        let protocol = if settings.covers {
            protocol
        } else {
            Protocol::Nothing
        };
        let mut app = App {
            settings,
            tab: Tab::Search,
            mode: if pending {
                Mode::Browsing
            } else {
                Mode::Editing
            },
            query,
            filter: String::new(),
            caret,
            results: Vec::new(),
            visible: Vec::new(),
            sorting: Sorting { order: Order::Natural, backwards: false },
            shelving: Sorting { order: Order::Natural, backwards: false },
            menu: 0,
            fmt_filter: None,
            lang_filter: None,
            table: TableState { row: None },
            marked: Vec::new(),
            jobs: Keyed::new(),
            mirrors: Vec::new(),
            mirror_label: "connecting…".to_owned(),
            status: "finding a working mirror".to_owned(),
            error: None,
            busy: true,
            downloading: false,
            pending_search: pending,
            quit: false,
            library: Vec::new(),
            shown: Vec::new(),
            library_table: TableState { row: None },
            protocol,
            covers: Keyed::new(),
            cover_due: None,
            painted: None,
            cover_area: None,
            actions: Vec::new(),
        };
        assert(app.filter@ =~= seq![]);
        assert(text::texts(app.mirrors@) =~= seq![]);
        assert(action_views(app.actions@) =~= seq![]);
        app.reload_library(past);
        app.spawn_mirror_resolve(refresh);
        app
    }
}

} // verus!
