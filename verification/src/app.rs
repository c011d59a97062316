//! The selection engine: one value that owns the browsable lists, the
//! filtered views over them, the cursor, the scroll anchor, the live search
//! query and the mode of the three-state machine (browsing files, browsing
//! hosts, searching hosts).
//!
//! Every mutation of the views, the cursor or the scroll anchor goes
//! through the methods here; rendering and every kind of input/output stay
//! outside. File browsing and host searching both rank their views through
//! the fuzzy matcher, case-insensitively. Confirming never indexes an empty
//! view: an empty confirm only writes a status line.

use vstd::prelude::*;
use vstd::string::StrSliceExecFns;
use vstd::string::StringExecFns;
use crate::SCORE_NORM;
use crate::fuzzy::fuzzy_search;
use crate::fuzzy::ranked_view_ok;
use crate::fuzzy::rank_before;
use crate::fuzzy::spec_fuzzy_match;
use crate::parser::FileEntry;
use crate::text::lower_of;
use crate::text::pop_char;
use crate::text::push_char;
use crate::text::spec_decimal;
use crate::text::spec_trim;
use crate::text::trim;
use crate::text::usize_to_string;
use crate::views::identity_view;
use crate::views::lemma_ordered_view_relabel;
use crate::views::lemma_ordered_view_unique;
use crate::views::ordered_view_ok;

verus! {

/// Which list the user is working in.
#[derive(Clone, Copy, PartialEq, Eq, Structural, Debug)]
pub enum AppMode {
    /// Browsing the configuration files.
    FileSelection,
    /// Browsing the hosts of the confirmed file.
    HostSelection,
    /// Typing a fuzzy query over the hosts.
    Search,
}

/// What came of handing a confirmed host to the session launcher.
#[derive(Debug)]
pub enum LaunchOutcome {
    /// The launcher ran; `success` tells whether it exited cleanly, and
    /// `detail` carries its captured output.
    Completed { success: bool, detail: String },
    /// The launcher could not be started at all.
    SpawnFailed { error: String },
}

/// Whether the file's display name matches the lowered query under the
/// fuzzy rules, comparing case-insensitively by lowering the name first.
pub open spec fn file_matches(e: FileEntry, ql: Seq<char>) -> bool {
    spec_fuzzy_match(lower_of(e.name@), ql) is Some
}

/// The fuzzy score of the file's display name against the lowered query.
/// Only meaningful when the name matches at all.
pub open spec fn file_score(e: FileEntry, ql: Seq<char>) -> int {
    spec_fuzzy_match(lower_of(e.name@), ql).unwrap()
}

/// Ranking order on file indices: higher score first, ties broken by
/// original index ascending.
pub open spec fn file_rank_before(files: Seq<FileEntry>, ql: Seq<char>, a: int, b: int) -> bool {
    file_score(files[a], ql) > file_score(files[b], ql) || (file_score(files[a], ql) == file_score(
        files[b],
        ql,
    ) && a < b)
}

/// The filtered file view for a query: the identity enumeration when the
/// query is empty, else the fuzzy ranking of the files whose name matches.
/// A query whose score could not be represented matches nothing.
pub open spec fn filtered_files_ok(
    files: Seq<FileEntry>,
    query: Seq<char>,
    view: Seq<(usize, FileEntry)>,
) -> bool {
    if query.len() == 0 {
        identity_view(files, view)
    } else {
        let ql = lower_of(query);
        if 25 * ql.len() + (SCORE_NORM as int) <= usize::MAX as int {
            ordered_view_ok(
                files.len() as int,
                |i: int| files[i],
                |i: int| file_matches(files[i], ql),
                |a: int, b: int| file_rank_before(files, ql, a, b),
                view,
            )
        } else {
            view.len() == 0
        }
    }
}

/// The filtered host view for a query: the identity enumeration when the
/// query is empty, else the fuzzy ranking of the matching hosts. A query
/// whose score could not be represented matches nothing.
pub open spec fn filtered_hosts_ok(
    hosts: Seq<String>,
    query: Seq<char>,
    view: Seq<(usize, String)>,
) -> bool {
    if query.len() == 0 {
        identity_view(hosts, view)
    } else {
        let ql = lower_of(query);
        if 25 * ql.len() + (SCORE_NORM as int) <= usize::MAX as int {
            ranked_view_ok(hosts, ql, view)
        } else {
            view.len() == 0
        }
    }
}

/// The selection engine's whole state.
pub struct App {
    /// The configuration files found at startup.
    pub files: Vec<FileEntry>,
    /// The file view the cursor moves over.
    pub filtered_files: Vec<(usize, FileEntry)>,
    /// The hosts of the confirmed file, or empty while browsing files.
    pub hosts: Vec<String>,
    /// The host view the cursor moves over.
    pub filtered_hosts: Vec<(usize, String)>,
    /// Cursor position within the active filtered view.
    pub selected: usize,
    /// First visible row of the active view; see [`App::update_scroll`].
    pub scroll_offset: usize,
    /// The file whose hosts are loaded, while browsing or searching hosts.
    pub current_file: Option<FileEntry>,
    /// The last human-readable status line.
    pub status_message: String,
    /// Which list the user is working in.
    pub mode: AppMode,
    /// The live search query.
    pub search_query: String,
    /// Where the configuration files were listed from.
    pub config_folder: String,
}

impl App {
    /// Length of the filtered view the cursor currently moves over.
    pub open spec fn active_view_len(self) -> int {
        match self.mode {
            AppMode::FileSelection => self.filtered_files@.len() as int,
            _ => self.filtered_hosts@.len() as int,
        }
    }

    /// The cursor stays inside the active view, and rests at zero when the
    /// view is empty.
    pub open spec fn cursor_ok(self) -> bool {
        if self.active_view_len() == 0 {
            self.selected == 0
        } else {
            (self.selected as int) < self.active_view_len()
        }
    }

    /// Well-formedness: the cursor is in range, each mode's filtered view
    /// agrees with its source and the query, host state exists exactly in
    /// the host modes, and host browsing always shows the full host list.
    pub open spec fn wf(self) -> bool {
        &&& self.cursor_ok()
        &&& match self.mode {
            AppMode::FileSelection => {
                &&& filtered_files_ok(self.files@, self.search_query@, self.filtered_files@)
                &&& self.hosts@.len() == 0
                &&& self.filtered_hosts@.len() == 0
                &&& self.current_file is None
            },
            AppMode::HostSelection => {
                &&& self.search_query@.len() == 0
                &&& identity_view(self.hosts@, self.filtered_hosts@)
                &&& self.current_file is Some
            },
            AppMode::Search => {
                &&& filtered_hosts_ok(self.hosts@, self.search_query@, self.filtered_hosts@)
                &&& self.current_file is Some
            },
        }
    }
}

fn identity_files(files: &Vec<FileEntry>) -> (r: Vec<(usize, FileEntry)>)
    ensures
        identity_view(files@, r@),
{
    let mut r: Vec<(usize, FileEntry)> = Vec::new();
    let mut i: usize = 0;
    while i < files.len()
        invariant
            0 <= i <= files@.len(),
            r@.len() == i as int,
            forall|k: int|
                0 <= k < i ==> (#[trigger] r@[k]).0 as int == k && r@[k].1 == files@[k],
        decreases files@.len() - i,
    {
        r.push((i, files[i].clone()));
        i = i + 1;
    }
    r
}

fn identity_hosts(hosts: &Vec<String>) -> (r: Vec<(usize, String)>)
    ensures
        identity_view(hosts@, r@),
{
    let mut r: Vec<(usize, String)> = Vec::new();
    let mut i: usize = 0;
    while i < hosts.len()
        invariant
            0 <= i <= hosts@.len(),
            r@.len() == i as int,
            forall|k: int|
                0 <= k < i ==> (#[trigger] r@[k]).0 as int == k && r@[k].1 == hosts@[k],
        decreases hosts@.len() - i,
    {
        r.push((i, hosts[i].clone()));
        i = i + 1;
    }
    r
}

fn loaded_files_status(n: usize, folder: &str) -> (r: String)
    ensures
        r@ == "Loaded "@ + spec_decimal(n as nat) + " files from "@ + folder@,
{
    let mut r = String::from_str("Loaded ");
    let num = usize_to_string(n);
    r.append(num.as_str());
    r.append(" files from ");
    r.append(folder);
    r
}

fn loaded_hosts_status(n: usize, file_name: &str) -> (r: String)
    ensures
        r@ == "Loaded "@ + spec_decimal(n as nat) + " hosts from "@ + file_name@,
{
    let mut r = String::from_str("Loaded ");
    let num = usize_to_string(n);
    r.append(num.as_str());
    r.append(" hosts from ");
    r.append(file_name);
    r
}

/// One step of the cursor moving up: down by one, clamped at zero.
pub open spec fn cursor_step_up(c: int) -> int {
    if c == 0 {
        0
    } else {
        c - 1
    }
}

/// One step of the cursor moving down: up by one, clamped at the end of a
/// view of length `len`; an empty view pins the cursor.
pub open spec fn cursor_step_down(c: int, len: int) -> int {
    if len > 0 && c < len - 1 {
        c + 1
    } else {
        c
    }
}

/// The cursor after `n` upward steps.
pub open spec fn cursor_after_ups(c: int, n: nat) -> int
    decreases n,
{
    if n == 0 {
        c
    } else {
        cursor_after_ups(cursor_step_up(c), (n - 1) as nat)
    }
}

/// The cursor after `n` downward steps over a view of length `len`.
pub open spec fn cursor_after_downs(c: int, len: int, n: nat) -> int
    decreases n,
{
    if n == 0 {
        c
    } else {
        cursor_after_downs(cursor_step_down(c, len), len, (n - 1) as nat)
    }
}

/// Moving up at least as many times as the starting index always lands the
/// cursor on zero; it never wraps past it.
pub proof fn lemma_repeated_up_reaches_zero(c: int, n: nat)
    requires
        0 <= c <= n,
    ensures
        cursor_after_ups(c, n) == 0,
    decreases n,
{
    if n > 0 {
        lemma_repeated_up_reaches_zero(cursor_step_up(c), (n - 1) as nat);
    }
}

/// Moving down often enough lands the cursor on the last index of the view
/// and keeps it there; over an empty view it stays at zero.
pub proof fn lemma_repeated_down_reaches_end(c: int, len: int, n: nat)
    requires
        len == 0 ==> c == 0,
        len > 0 ==> 0 <= c < len && n + c >= len - 1,
    ensures
        len == 0 ==> cursor_after_downs(c, len, n) == 0,
        len > 0 ==> cursor_after_downs(c, len, n) == len - 1,
    decreases n,
{
    if n > 0 {
        lemma_repeated_down_reaches_end(cursor_step_down(c, len), len, (n - 1) as nat);
    }
}

proof fn lemma_files_view_from_names(
    files: Seq<FileEntry>,
    names: Seq<String>,
    ql: Seq<char>,
    ranked: Seq<(usize, String)>,
    v: Seq<(usize, FileEntry)>,
)
    requires
        names.len() == files.len(),
        forall|i: int| 0 <= i < names.len() ==> #[trigger] names[i] == files[i].name,
        25 * ql.len() + (SCORE_NORM as int) <= usize::MAX as int ==> ranked_view_ok(
            names,
            ql,
            ranked,
        ),
        25 * ql.len() + (SCORE_NORM as int) > usize::MAX as int ==> ranked.len() == 0,
        v.len() == ranked.len(),
        forall|j: int|
            0 <= j < v.len() ==> (#[trigger] v[j]).0 == ranked[j].0 && v[j].1 == files[ranked[j].0 as int],
    ensures
        25 * ql.len() + (SCORE_NORM as int) <= usize::MAX as int ==> ordered_view_ok(
            files.len() as int,
            |i: int| files[i],
            |i: int| file_matches(files[i], ql),
            |a: int, b: int| file_rank_before(files, ql, a, b),
            v,
        ),
        25 * ql.len() + (SCORE_NORM as int) > usize::MAX as int ==> v.len() == 0,
{
    if 25 * ql.len() + (SCORE_NORM as int) <= usize::MAX as int {
        let keep_n = |i: int| crate::fuzzy::matches_at_index(names, ql, i);
        let before_n = |a: int, b: int| rank_before(names, ql, a, b);
        let keep_f = |i: int| file_matches(files[i], ql);
        let before_f = |a: int, b: int| file_rank_before(files, ql, a, b);
        assert forall|i: int| 0 <= i < names.len() implies (#[trigger] keep_n(i)) == keep_f(i) by {
            assert(names[i]@ == files[i].name@);
        }
        assert forall|a: int, b: int|
            0 <= a < names.len() && 0 <= b < names.len() implies (#[trigger] before_n(a, b))
            == before_f(a, b) by {
            assert(names[a]@ == files[a].name@);
            assert(names[b]@ == files[b].name@);
        }
        assert forall|j: int| 0 <= j < v.len() implies (#[trigger] v[j]).0 == ranked[j].0
            && v[j].1 == files[ranked[j].0 as int] by {}
        lemma_ordered_view_relabel(
            names.len() as int,
            |i: int| names[i],
            keep_n,
            before_n,
            ranked,
            |i: int| files[i],
            keep_f,
            before_f,
            v,
        );
    }
}

/// Filtering the files with a given query admits one view only: issuing
/// the same query twice leaves the same filtered view as issuing it once.
pub proof fn lemma_filtered_files_deterministic(
    files: Seq<FileEntry>,
    query: Seq<char>,
    v1: Seq<(usize, FileEntry)>,
    v2: Seq<(usize, FileEntry)>,
)
    requires
        filtered_files_ok(files, query, v1),
        filtered_files_ok(files, query, v2),
    ensures
        v1 == v2,
{
    if query.len() == 0 {
        assert(v1 =~= v2);
    } else {
        let ql = lower_of(query);
        if 25 * ql.len() + (SCORE_NORM as int) <= usize::MAX as int {
            let before = |a: int, b: int| file_rank_before(files, ql, a, b);
            assert forall|a: int, b: int| #[trigger] before(a, b) implies !before(b, a) by {}
            lemma_ordered_view_unique(
                files.len() as int,
                |i: int| files[i],
                |i: int| file_matches(files[i], ql),
                before,
                v1,
                v2,
            );
            assert(v1 =~= v2);
        } else {
            assert(v1 =~= v2);
        }
    }
}

/// Ranking the hosts with a given query admits one view only: issuing the
/// same query twice leaves the same filtered view as issuing it once.
pub proof fn lemma_filtered_hosts_deterministic(
    hosts: Seq<String>,
    query: Seq<char>,
    v1: Seq<(usize, String)>,
    v2: Seq<(usize, String)>,
)
    requires
        filtered_hosts_ok(hosts, query, v1),
        filtered_hosts_ok(hosts, query, v2),
    ensures
        v1 == v2,
{
    if query.len() == 0 {
        assert(v1 =~= v2);
    } else {
        let ql = lower_of(query);
        if 25 * ql.len() + (SCORE_NORM as int) <= usize::MAX as int {
            let before = |a: int, b: int| rank_before(hosts, ql, a, b);
            assert forall|a: int, b: int| #[trigger] before(a, b) implies !before(b, a) by {}
            lemma_ordered_view_unique(
                hosts.len() as int,
                |i: int| hosts[i],
                |i: int| crate::fuzzy::matches_at_index(hosts, ql, i),
                before,
                v1,
                v2,
            );
            assert(v1 =~= v2);
        } else {
            assert(v1 =~= v2);
        }
    }
}

/// Where the scroll anchor moves so that the cursor at `cur` stays inside
/// a viewport of `h` rows starting at `off`: the minimal adjustment, no
/// centering.
pub open spec fn spec_scroll_adjust(off: int, cur: int, h: int) -> int {
    if cur < off {
        cur
    } else if cur >= off + h {
        cur + 1 - h
    } else {
        off
    }
}

impl App {
    /// Builds the engine over the files listed from `config_folder`: file
    /// browsing mode, everything at rest, and a status line reporting the
    /// count.
    pub fn new(files: Vec<FileEntry>, config_folder: String) -> (r: App)
        ensures
            r.wf(),
            r.mode == AppMode::FileSelection,
            r.files == files,
            identity_view(files@, r.filtered_files@),
            r.hosts@.len() == 0,
            r.filtered_hosts@.len() == 0,
            r.selected == 0,
            r.scroll_offset == 0,
            r.current_file is None,
            r.search_query@.len() == 0,
            r.config_folder == config_folder,
            r.status_message@ == "Loaded "@ + spec_decimal(files@.len() as nat) + " files from "@
                + config_folder@,
    {
        let status = loaded_files_status(files.len(), config_folder.as_str());
        let filtered_files = identity_files(&files);
        App {
            files,
            filtered_files,
            hosts: Vec::new(),
            filtered_hosts: Vec::new(),
            selected: 0,
            scroll_offset: 0,
            current_file: None,
            status_message: status,
            mode: AppMode::FileSelection,
            search_query: String::new(),
            config_folder,
        }
    }

    /// Recomputes the file view from the file list and the query, ranking
    /// the display names through the fuzzy matcher.
    fn update_filtered_files(&mut self)
        ensures
            filtered_files_ok(
                old(self).files@,
                old(self).search_query@,
                final(self).filtered_files@,
            ),
            *final(self) == (App { filtered_files: final(self).filtered_files, ..*old(self) }),
    {
        if self.search_query.as_str().unicode_len() == 0 {
            let v = identity_files(&self.files);
            self.filtered_files = v;
        } else {
            let mut names: Vec<String> = Vec::new();
            let mut i: usize = 0;
            while i < self.files.len()
                invariant
                    0 <= i <= self.files@.len(),
                    names@.len() == i as int,
                    forall|k: int| 0 <= k < i ==> #[trigger] names@[k] == self.files@[k].name,
                decreases self.files@.len() - i,
            {
                names.push(self.files[i].name.clone());
                i = i + 1;
            }
            let ranked = fuzzy_search(&names, self.search_query.as_str());
            proof {
                assert(forall|j: int|
                    0 <= j < ranked@.len() ==> (#[trigger] ranked@[j]).0 < self.files@.len());
            }
            let mut v: Vec<(usize, FileEntry)> = Vec::new();
            let mut k: usize = 0;
            while k < ranked.len()
                invariant
                    0 <= k <= ranked@.len(),
                    v@.len() == k as int,
                    forall|j: int|
                        0 <= j < ranked@.len() ==> (#[trigger] ranked@[j]).0 < self.files@.len(),
                    forall|j: int|
                        0 <= j < k ==> (#[trigger] v@[j]).0 == ranked@[j].0 && v@[j].1
                            == self.files@[ranked@[j].0 as int],
                decreases ranked@.len() - k,
            {
                let idx = ranked[k].0;
                v.push((idx, self.files[idx].clone()));
                k = k + 1;
            }
            proof {
                lemma_files_view_from_names(
                    self.files@,
                    names@,
                    lower_of(self.search_query@),
                    ranked@,
                    v@,
                );
            }
            self.filtered_files = v;
        }
    }

    /// Recomputes the host view from the host list and the query.
    fn update_filtered_hosts(&mut self)
        ensures
            filtered_hosts_ok(
                old(self).hosts@,
                old(self).search_query@,
                final(self).filtered_hosts@,
            ),
            *final(self) == (App { filtered_hosts: final(self).filtered_hosts, ..*old(self) }),
    {
        if self.search_query.as_str().unicode_len() == 0 {
            let v = identity_hosts(&self.hosts);
            self.filtered_hosts = v;
        } else {
            let v = fuzzy_search(&self.hosts, self.search_query.as_str());
            self.filtered_hosts = v;
        }
    }

    /// Moves the cursor one row up, clamped at the top; nothing wraps.
    pub fn move_up(&mut self)
        requires
            old(self).wf(),
        ensures
            final(self).wf(),
            final(self).selected as int == cursor_step_up(old(self).selected as int),
            *final(self) == (App { selected: final(self).selected, ..*old(self) }),
    {
        if self.selected > 0 {
            self.selected = self.selected - 1;
        }
    }

    /// Moves the cursor one row down, clamped at the end of the active
    /// view; nothing wraps and an empty view pins the cursor.
    pub fn move_down(&mut self)
        requires
            old(self).wf(),
        ensures
            final(self).wf(),
            final(self).selected as int == cursor_step_down(
                old(self).selected as int,
                old(self).active_view_len(),
            ),
            *final(self) == (App { selected: final(self).selected, ..*old(self) }),
    {
        let max_items = match self.mode {
            AppMode::FileSelection => self.filtered_files.len(),
            _ => self.filtered_hosts.len(),
        };
        if max_items > 0 && self.selected < max_items - 1 {
            self.selected = self.selected + 1;
        }
    }

    /// Replaces the whole search query and recomputes the active filtered
    /// view, resetting cursor and scroll. While browsing hosts no query is
    /// live, and the call changes nothing; searching starts through
    /// [`App::enter_search_mode`].
    pub fn set_query(&mut self, q: String)
        requires
            old(self).wf(),
        ensures
            final(self).wf(),
            old(self).mode == AppMode::FileSelection ==> final(self).search_query == q
                && filtered_files_ok(old(self).files@, q@, final(self).filtered_files@)
                && final(self).selected == 0 && final(self).scroll_offset == 0 && *final(self)
                == (App {
                search_query: final(self).search_query,
                filtered_files: final(self).filtered_files,
                selected: final(self).selected,
                scroll_offset: final(self).scroll_offset,
                ..*old(self)
            }),
            old(self).mode == AppMode::Search ==> final(self).search_query == q
                && filtered_hosts_ok(old(self).hosts@, q@, final(self).filtered_hosts@) && final(self).selected == 0 && final(self).scroll_offset == 0 && *final(self) == (App {
                search_query: final(self).search_query,
                filtered_hosts: final(self).filtered_hosts,
                selected: final(self).selected,
                scroll_offset: final(self).scroll_offset,
                ..*old(self)
            }),
            old(self).mode == AppMode::HostSelection ==> *final(self) == *old(self),
    {
        match self.mode {
            AppMode::FileSelection => {
                self.search_query = q;
                self.update_filtered_files();
                self.selected = 0;
                self.scroll_offset = 0;
            },
            AppMode::Search => {
                self.search_query = q;
                self.update_filtered_hosts();
                self.selected = 0;
                self.scroll_offset = 0;
            },
            AppMode::HostSelection => {},
        }
    }

    /// Appends one character to the query and refilters the active view,
    /// resetting cursor and scroll. While browsing hosts the query stays
    /// untouched and only the cursor resets.
    pub fn add_char_to_search(&mut self, c: char)
        requires
            old(self).wf(),
        ensures
            final(self).wf(),
            final(self).selected == 0,
            old(self).mode == AppMode::FileSelection ==> final(self).search_query@ == old(self).search_query@.push(c) && filtered_files_ok(
                old(self).files@,
                final(self).search_query@,
                final(self).filtered_files@,
            ) && *final(self) == (App {
                search_query: final(self).search_query,
                filtered_files: final(self).filtered_files,
                selected: final(self).selected,
                scroll_offset: final(self).scroll_offset,
                ..*old(self)
            }),
            old(self).mode == AppMode::Search ==> final(self).search_query@ == old(self).search_query@.push(c) && filtered_hosts_ok(
                old(self).hosts@,
                final(self).search_query@,
                final(self).filtered_hosts@,
            ) && *final(self) == (App {
                search_query: final(self).search_query,
                filtered_hosts: final(self).filtered_hosts,
                selected: final(self).selected,
                scroll_offset: final(self).scroll_offset,
                ..*old(self)
            }),
            old(self).mode == AppMode::HostSelection ==> *final(self) == (App {
                selected: final(self).selected,
                scroll_offset: final(self).scroll_offset,
                ..*old(self)
            }),
            final(self).scroll_offset == 0,
    {
        match self.mode {
            AppMode::FileSelection => {
                push_char(&mut self.search_query, c);
                self.update_filtered_files();
            },
            AppMode::Search => {
                push_char(&mut self.search_query, c);
                self.update_filtered_hosts();
            },
            AppMode::HostSelection => {},
        }
        self.selected = 0;
        self.scroll_offset = 0;
    }

    /// Removes the last character of the query, if any, and refilters the
    /// active view, resetting cursor and scroll. While browsing hosts the
    /// query stays untouched and only the cursor resets.
    pub fn remove_char_from_search(&mut self)
        requires
            old(self).wf(),
        ensures
            final(self).wf(),
            final(self).selected == 0,
            final(self).scroll_offset == 0,
            old(self).mode == AppMode::FileSelection ==> final(self).search_query@ == (if old(self).search_query@.len() == 0 {
                old(self).search_query@
            } else {
                old(self).search_query@.drop_last()
            }) && filtered_files_ok(
                old(self).files@,
                final(self).search_query@,
                final(self).filtered_files@,
            ) && *final(self) == (App {
                search_query: final(self).search_query,
                filtered_files: final(self).filtered_files,
                selected: final(self).selected,
                scroll_offset: final(self).scroll_offset,
                ..*old(self)
            }),
            old(self).mode == AppMode::Search ==> final(self).search_query@ == (if old(self).search_query@.len() == 0 {
                old(self).search_query@
            } else {
                old(self).search_query@.drop_last()
            }) && filtered_hosts_ok(
                old(self).hosts@,
                final(self).search_query@,
                final(self).filtered_hosts@,
            ) && *final(self) == (App {
                search_query: final(self).search_query,
                filtered_hosts: final(self).filtered_hosts,
                selected: final(self).selected,
                scroll_offset: final(self).scroll_offset,
                ..*old(self)
            }),
            old(self).mode == AppMode::HostSelection ==> *final(self) == (App {
                selected: final(self).selected,
                scroll_offset: final(self).scroll_offset,
                ..*old(self)
            }),
    {
        match self.mode {
            AppMode::FileSelection => {
                let _ = pop_char(&mut self.search_query);
                self.update_filtered_files();
            },
            AppMode::Search => {
                let _ = pop_char(&mut self.search_query);
                self.update_filtered_hosts();
            },
            AppMode::HostSelection => {},
        }
        self.selected = 0;
        self.scroll_offset = 0;
    }

    /// Switches from browsing hosts to searching them: clears the query
    /// and resets the cursor; the full host view stays. In any other mode
    /// the call changes nothing.
    pub fn enter_search_mode(&mut self)
        requires
            old(self).wf(),
        ensures
            final(self).wf(),
            old(self).mode == AppMode::HostSelection ==> final(self).mode == AppMode::Search
                && final(self).search_query@.len() == 0 && final(self).selected == 0 && final(self).scroll_offset == 0 && *final(self) == (App {
                mode: final(self).mode,
                search_query: final(self).search_query,
                selected: final(self).selected,
                scroll_offset: final(self).scroll_offset,
                ..*old(self)
            }),
            old(self).mode != AppMode::HostSelection ==> *final(self) == *old(self),
    {
        if self.mode == AppMode::HostSelection {
            self.mode = AppMode::Search;
            self.search_query = String::new();
            self.selected = 0;
            self.scroll_offset = 0;
        }
    }

    /// Leaves host search for host browsing: clears the query, restores
    /// the full host view and resets the cursor. In any other mode the
    /// call changes nothing.
    pub fn exit_search_mode(&mut self)
        requires
            old(self).wf(),
        ensures
            final(self).wf(),
            old(self).mode == AppMode::Search ==> final(self).mode == AppMode::HostSelection
                && final(self).search_query@.len() == 0 && identity_view(
                old(self).hosts@,
                final(self).filtered_hosts@,
            ) && final(self).selected == 0 && final(self).scroll_offset == 0 && *final(self)
                == (App {
                mode: final(self).mode,
                search_query: final(self).search_query,
                filtered_hosts: final(self).filtered_hosts,
                selected: final(self).selected,
                scroll_offset: final(self).scroll_offset,
                ..*old(self)
            }),
            old(self).mode != AppMode::Search ==> *final(self) == *old(self),
    {
        if self.mode == AppMode::Search {
            self.mode = AppMode::HostSelection;
            self.search_query = String::new();
            self.update_filtered_hosts();
            self.selected = 0;
            self.scroll_offset = 0;
        }
    }

    /// The entry under the cursor as `(original_index, label)`: the file
    /// name while browsing files, the host alias otherwise; `None` exactly
    /// when the active view is empty.
    pub fn current_selection(&self) -> (r: Option<(usize, String)>)
        requires
            self.wf(),
        ensures
            self.active_view_len() == 0 <==> r is None,
            match r {
                Some(p) => match self.mode {
                    AppMode::FileSelection => {
                        let e = self.filtered_files@[self.selected as int];
                        p.0 == e.0 && p.1 == e.1.name
                    },
                    _ => {
                        let e = self.filtered_hosts@[self.selected as int];
                        p.0 == e.0 && p.1 == e.1
                    },
                },
                None => true,
            },
    {
        match self.mode {
            AppMode::FileSelection => {
                if self.filtered_files.len() == 0 {
                    None
                } else {
                    let idx = self.filtered_files[self.selected].0;
                    let name = self.filtered_files[self.selected].1.name.clone();
                    Some((idx, name))
                }
            },
            _ => {
                if self.filtered_hosts.len() == 0 {
                    None
                } else {
                    let idx = self.filtered_hosts[self.selected].0;
                    let host = self.filtered_hosts[self.selected].1.clone();
                    Some((idx, host))
                }
            },
        }
    }

    /// Confirms the file under the cursor. With an empty view nothing is
    /// selected: the status line says so and the state stays put.
    /// Otherwise the chosen entry comes back so the caller can read its
    /// hosts and hand them to [`App::load_hosts_from_selected_file`].
    pub fn confirm_file_selection(&mut self) -> (r: Option<FileEntry>)
        requires
            old(self).wf(),
            old(self).mode == AppMode::FileSelection,
        ensures
            final(self).wf(),
            old(self).filtered_files@.len() == 0 ==> r is None && final(self).status_message@
                == "No file selected"@ && *final(self) == (App {
                status_message: final(self).status_message,
                ..*old(self)
            }),
            old(self).filtered_files@.len() > 0 ==> *final(self) == *old(self) && r == Some(
                old(self).filtered_files@[old(self).selected as int].1,
            ),
    {
        if self.filtered_files.len() == 0 {
            self.status_message = String::from_str("No file selected");
            None
        } else {
            Some(self.filtered_files[self.selected].1.clone())
        }
    }

    /// Installs the hosts read from the file under the cursor and moves to
    /// host browsing: the file becomes current, the query clears, cursor
    /// and scroll reset, the full host view shows, and the status line
    /// reports the count.
    pub fn load_hosts_from_selected_file(&mut self, hosts: Vec<String>)
        requires
            old(self).wf(),
            old(self).mode == AppMode::FileSelection,
            old(self).filtered_files@.len() > 0,
        ensures
            final(self).wf(),
            final(self).mode == AppMode::HostSelection,
            final(self).hosts == hosts,
            identity_view(hosts@, final(self).filtered_hosts@),
            final(self).selected == 0,
            final(self).scroll_offset == 0,
            final(self).search_query@.len() == 0,
            final(self).current_file == Some(
                old(self).filtered_files@[old(self).selected as int].1,
            ),
            final(self).files == old(self).files,
            final(self).filtered_files == old(self).filtered_files,
            final(self).config_folder == old(self).config_folder,
            final(self).status_message@ == "Loaded "@ + spec_decimal(hosts@.len() as nat)
                + " hosts from "@ + old(self).filtered_files@[old(self).selected as int].1.name@,
    {
        let entry = self.filtered_files[self.selected].1.clone();
        self.status_message = loaded_hosts_status(hosts.len(), entry.name.as_str());
        self.current_file = Some(entry);
        self.hosts = hosts;
        let v = identity_hosts(&self.hosts);
        self.filtered_hosts = v;
        self.selected = 0;
        self.scroll_offset = 0;
        self.search_query = String::new();
        self.mode = AppMode::HostSelection;
    }

    /// Returns to file browsing from anywhere: host state and query clear,
    /// cursor and scroll reset, and the file view shows every file again.
    pub fn back_to_file_selection(&mut self)
        requires
            old(self).wf(),
        ensures
            final(self).wf(),
            final(self).mode == AppMode::FileSelection,
            final(self).search_query@.len() == 0,
            final(self).hosts@.len() == 0,
            final(self).filtered_hosts@.len() == 0,
            final(self).current_file is None,
            final(self).selected == 0,
            final(self).scroll_offset == 0,
            final(self).files == old(self).files,
            identity_view(old(self).files@, final(self).filtered_files@),
            final(self).status_message == old(self).status_message,
            final(self).config_folder == old(self).config_folder,
    {
        self.mode = AppMode::FileSelection;
        self.search_query = String::new();
        self.hosts = Vec::new();
        self.filtered_hosts = Vec::new();
        self.current_file = None;
        self.selected = 0;
        self.scroll_offset = 0;
        let v = identity_files(&self.files);
        self.filtered_files = v;
    }

    /// Confirms the host under the cursor. With an empty view there is no
    /// host: the status line says so and the state stays put. Otherwise
    /// the trimmed alias comes back for the caller to hand to the session
    /// launcher; the state does not change until the launcher reports
    /// through [`App::report_launch`].
    pub fn confirm_host_selection(&mut self) -> (r: Option<String>)
        requires
            old(self).wf(),
        ensures
            final(self).wf(),
            old(self).filtered_hosts@.len() == 0 ==> r is None && final(self).status_message@
                == "No host to connect to"@ && *final(self) == (App {
                status_message: final(self).status_message,
                ..*old(self)
            }),
            old(self).filtered_hosts@.len() > 0 ==> *final(self) == *old(self) && match r {
                Some(h) => h@ == spec_trim(
                    old(self).filtered_hosts@[old(self).selected as int].1@,
                ),
                None => false,
            },
    {
        if self.filtered_hosts.len() == 0 {
            self.status_message = String::from_str("No host to connect to");
            None
        } else {
            Some(trim(self.filtered_hosts[self.selected].1.as_str()))
        }
    }

    /// Records what the session launcher reported for `host`: only the
    /// status line changes; mode, lists, views, cursor and query all stay
    /// exactly as they were, so a failed launch can simply be retried.
    pub fn report_launch(&mut self, host: &str, outcome: LaunchOutcome)
        requires
            old(self).wf(),
        ensures
            final(self).wf(),
            *final(self) == (App { status_message: final(self).status_message, ..*old(self) }),
            final(self).status_message@ == match outcome {
                LaunchOutcome::Completed { success, detail } => (if success {
                    "Connected to: "@
                } else {
                    "Failed to connect to: "@
                }) + host@ + "\n"@ + detail@,
                LaunchOutcome::SpawnFailed { error } => "Failed: "@ + error@,
            },
    {
        match outcome {
            LaunchOutcome::Completed { success, detail } => {
                let mut s = if success {
                    String::from_str("Connected to: ")
                } else {
                    String::from_str("Failed to connect to: ")
                };
                s.append(host);
                s.append("\n");
                s.append(detail.as_str());
                self.status_message = s;
            },
            LaunchOutcome::SpawnFailed { error } => {
                let mut s = String::from_str("Failed: ");
                s.append(error.as_str());
                self.status_message = s;
            },
        }
    }

    /// Slides the scroll anchor the least amount that keeps the cursor
    /// inside a viewport of `viewport_height` rows; a viewport of zero
    /// rows leaves the anchor alone.
    pub fn update_scroll(&mut self, viewport_height: usize)
        requires
            old(self).wf(),
        ensures
            final(self).wf(),
            *final(self) == (App { scroll_offset: final(self).scroll_offset, ..*old(self) }),
            viewport_height == 0 ==> final(self).scroll_offset == old(self).scroll_offset,
            viewport_height > 0 ==> final(self).scroll_offset as int == spec_scroll_adjust(
                old(self).scroll_offset as int,
                old(self).selected as int,
                viewport_height as int,
            ),
            viewport_height > 0 ==> final(self).scroll_offset <= final(self).selected < final(self).scroll_offset + viewport_height,
    {
        if viewport_height == 0 {
            return ;
        }
        if self.selected < self.scroll_offset {
            self.scroll_offset = self.selected;
        } else if self.selected - self.scroll_offset >= viewport_height {
            self.scroll_offset = self.selected - viewport_height + 1;
        }
    }
}

} // verus!
