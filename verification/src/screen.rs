//! The decisions of the terminal screen: how many charts a page holds, how many tabs
//! there are, which hosts a tab shows and where, what a key press does, the order of the
//! hosts, and the text of the information box.

use vstd::prelude::*;
use vstd::string::*;
use crate::decimal::{append_decimal, decimal};
use crate::text::char_vec;

verus! {

/// The number of charts on a page: one per host with data, at most three.
pub fn charts_per_page(hosts_with_data: usize) -> (n: usize)
    ensures
        n == if hosts_with_data < 3 { hosts_with_data } else { 3 },
{
    if hosts_with_data < 3 { hosts_with_data } else { 3 }
}

/// The number of tabs: the hosts divided by the charts per page, rounded up.
pub fn tab_count(hosts: usize, per_page: usize) -> (n: usize)
    requires
        per_page > 0,
        hosts + per_page <= usize::MAX,
    ensures
        n == (hosts + per_page - 1) / per_page as int,
{
    (hosts + per_page - 1) / per_page
}

/// The share of the height, in percent, that each chart row gets.
pub fn chart_row_percent(per_page: usize) -> (p: u16)
    requires
        per_page as u16 != 0,
    ensures
        p == 100u16 / (per_page as u16),
{
    100 / (per_page as u16)
}

/// A key press, as far as the screen tells keys apart.
#[derive(Clone, Copy)]
pub enum Key {
    Char(char),
    Esc,
    Left,
    Right,
    Other,
}

/// What a key press leads to: leaving, or staying on a tab.
pub enum KeyOutcome {
    Quit,
    Stay(isize),
}

/// A key press can be handled without overflow: stepping left from `isize::MIN`,
/// wrapping left with no tabs, and stepping right from `isize::MAX` are left out.
pub open spec fn key_allowed(tab: isize, num_tabs: usize, key: Key) -> bool {
    match key {
        Key::Left => tab > isize::MIN && (tab - 1 < 0 ==> num_tabs >= 1),
        Key::Right => tab < isize::MAX,
        _ => true,
    }
}

/// The outcome of a key press on tab `tab` of `num_tabs`: `q` and Esc leave; Left steps
/// back, from the first tab to the last; Right steps on, from past the last tab to the
/// first; other keys keep the tab.
pub open spec fn key_step(tab: isize, num_tabs: usize, key: Key) -> KeyOutcome {
    match key {
        Key::Char(c) => if c == 'q' { KeyOutcome::Quit } else { KeyOutcome::Stay(tab) },
        Key::Esc => KeyOutcome::Quit,
        Key::Left => if tab - 1 < 0 {
            KeyOutcome::Stay((num_tabs - 1) as isize)
        } else {
            KeyOutcome::Stay((tab - 1) as isize)
        },
        Key::Right => if (tab + 1) as usize >= num_tabs {
            KeyOutcome::Stay(0)
        } else {
            KeyOutcome::Stay((tab + 1) as isize)
        },
        Key::Other => KeyOutcome::Stay(tab),
    }
}

/// Whether a key press on tab `tab` of `num_tabs` can be handled without overflow.
pub fn key_is_allowed(tab: isize, num_tabs: usize, key: Key) -> (r: bool)
    ensures
        r == key_allowed(tab, num_tabs, key),
{
    match key {
        Key::Left => tab > isize::MIN && (tab - 1 >= 0 || num_tabs >= 1),
        Key::Right => tab < isize::MAX,
        _ => true,
    }
}

/// Handles a key press on tab `tab` of `num_tabs`.
pub fn handle_key(tab: isize, num_tabs: usize, key: Key) -> (out: KeyOutcome)
    requires
        key_allowed(tab, num_tabs, key),
    ensures
        out == key_step(tab, num_tabs, key),
{
    match key {
        Key::Char(c) => {
            if c == 'q' {
                KeyOutcome::Quit
            } else {
                KeyOutcome::Stay(tab)
            }
        },
        Key::Esc => KeyOutcome::Quit,
        Key::Left => {
            let t = tab - 1;
            if t < 0 {
                KeyOutcome::Stay((num_tabs - 1) as isize)
            } else {
                KeyOutcome::Stay(t)
            }
        },
        Key::Right => {
            let t = tab + 1;
            if t as usize >= num_tabs {
                KeyOutcome::Stay(0)
            } else {
                KeyOutcome::Stay(t)
            }
        },
        Key::Other => KeyOutcome::Stay(tab),
    }
}

/// With at least one tab, every key press from a tab in range is allowed and leaves the
/// screen on a tab in range, or quits.
pub proof fn law_tab_stays_in_range(tab: isize, num_tabs: usize, key: Key)
    requires
        1 <= num_tabs <= isize::MAX,
        0 <= tab < num_tabs,
    ensures
        key_allowed(tab, num_tabs, key),
        key_step(tab, num_tabs, key) matches KeyOutcome::Stay(t) ==> 0 <= t < num_tabs,
{
}

/// Stepping right and then left, or left and then right, comes back to the same tab.
pub proof fn law_left_undoes_right(tab: isize, num_tabs: usize)
    requires
        1 <= num_tabs <= isize::MAX,
        0 <= tab < num_tabs,
    ensures
        key_step(tab, num_tabs, Key::Right) matches KeyOutcome::Stay(t)
            && key_step(t, num_tabs, Key::Left) == KeyOutcome::Stay(tab),
        key_step(tab, num_tabs, Key::Left) matches KeyOutcome::Stay(t)
            && key_step(t, num_tabs, Key::Right) == KeyOutcome::Stay(tab),
{
}

/// The number of hosts that tab `tab` shows: those from `tab * per_page` on, at most
/// `per_page` of them.
pub open spec fn shown_count(hosts: int, per_page: int, tab: int) -> int {
    let first = tab * per_page;
    if first >= hosts {
        0
    } else if hosts - first < per_page {
        hosts - first
    } else {
        per_page
    }
}

/// Host `i` is on tab `i / per_page`, in chart row `i % per_page`.
proof fn lemma_tab_of_host(i: int, per_page: int, tab: int)
    requires
        per_page > 0,
        i >= 0,
        tab >= 0,
    ensures
        (i / per_page == tab) <==> (tab * per_page <= i < tab * per_page + per_page),
        i / per_page == tab ==> i % per_page == i - tab * per_page,
{
    let q = i / per_page;
    let r = i % per_page;
    assert(i == per_page * q + r && 0 <= r < per_page) by (nonlinear_arith)
        requires
            per_page > 0,
            q == i / per_page,
            r == i % per_page,
    ;
    assert((q == tab) <==> (tab * per_page <= i < tab * per_page + per_page)) by (nonlinear_arith)
        requires
            per_page > 0,
            i == per_page * q + r,
            0 <= r < per_page,
    ;
}

/// The hosts that tab `tab` shows, by their place in the sorted host list, each with
/// the chart row it goes to: host `tab * per_page + k` in row `k`.
pub fn visible_charts(hosts: usize, per_page: usize, tab: usize) -> (charts: Vec<(usize, usize)>)
    requires
        hosts > 0 ==> per_page > 0,
    ensures
        charts@ == Seq::new(
            shown_count(hosts as int, per_page as int, tab as int) as nat,
            |k: int| ((tab * per_page + k) as usize, k as usize),
        ),
{
    let mut charts: Vec<(usize, usize)> = Vec::new();
    let mut i: usize = 0;
    while i < hosts
        invariant
            hosts > 0 ==> per_page > 0,
            0 <= i <= hosts,
            charts@ == Seq::new(
                shown_count(i as int, per_page as int, tab as int) as nat,
                |k: int| ((tab * per_page + k) as usize, k as usize),
            ),
        decreases hosts - i,
    {
        proof {
            lemma_tab_of_host(i as int, per_page as int, tab as int);
        }
        if i / per_page == tab {
            charts.push((i, i % per_page));
            assert(charts@ =~= Seq::new(
                shown_count(i + 1, per_page as int, tab as int) as nat,
                |k: int| ((tab * per_page + k) as usize, k as usize),
            ));
        } else {
            assert(shown_count(i + 1, per_page as int, tab as int) == shown_count(i as int, per_page as int, tab as int));
        }
        i = i + 1;
    }
    charts
}

/// The texts of the information box that depend on the job.
pub struct InfoText {
    /// The number of cores asked for.
    pub cores: String,
    /// The memory per core asked for, in MB.
    pub memory: String,
    /// `Tab: n/m` for the tab shown, where there is more than one tab.
    pub tab: Option<String>,
    /// `Job ` and the job id.
    pub title: String,
}

/// The texts of the information box for tab `tab` (counting from 0) of `num_tabs`.
pub fn info_text(tab: usize, num_tabs: usize, job_id: &str, requested_memory: usize, requested_num_cores: usize) -> (info: InfoText)
    requires
        num_tabs > 1 ==> tab < usize::MAX,
    ensures
        info.cores@ == decimal(requested_num_cores as nat),
        info.memory@ == decimal(requested_memory as nat),
        num_tabs > 1 ==> (info.tab matches Some(t) && t@ == "Tab: "@ + decimal((tab + 1) as nat) + "/"@ + decimal(num_tabs as nat)),
        num_tabs <= 1 ==> info.tab is None,
        info.title@ == "Job "@ + job_id@,
{
    let mut cores = String::new();
    append_decimal(&mut cores, requested_num_cores as u64);
    let mut memory = String::new();
    append_decimal(&mut memory, requested_memory as u64);
    proof {
        reveal_strlit("Tab: ");
        reveal_strlit("/");
        reveal_strlit("Job ");
    }
    let tab_text = if num_tabs > 1 {
        let mut t = String::from_str("Tab: ");
        append_decimal(&mut t, (tab + 1) as u64);
        t.append("/");
        append_decimal(&mut t, num_tabs as u64);
        assert(t@ =~= "Tab: "@ + decimal((tab + 1) as nat) + "/"@ + decimal(num_tabs as nat));
        Some(t)
    } else {
        None
    };
    let mut title = String::from_str("Job ");
    title.append(job_id);
    assert(cores@ =~= decimal(requested_num_cores as nat));
    assert(memory@ =~= decimal(requested_memory as nat));
    InfoText { cores, memory, tab: tab_text, title }
}

/// `a` comes before `b`, or equals it, in the order of code points, character by
/// character; for UTF-8 text this is the byte order by which `str` compares.
pub open spec fn text_le(a: Seq<char>, b: Seq<char>) -> bool
    decreases a.len(),
{
    if a.len() == 0 {
        true
    } else if b.len() == 0 {
        false
    } else if a[0] != b[0] {
        a[0] < b[0]
    } else {
        text_le(a.drop_first(), b.drop_first())
    }
}

/// Any two texts are ordered one way or the other.
pub proof fn lemma_text_le_total(a: Seq<char>, b: Seq<char>)
    ensures
        text_le(a, b) || text_le(b, a),
    decreases a.len(),
{
    if a.len() > 0 && b.len() > 0 && a[0] == b[0] {
        lemma_text_le_total(a.drop_first(), b.drop_first());
    }
}

/// The order of texts is transitive.
pub proof fn lemma_text_le_transitive(a: Seq<char>, b: Seq<char>, c: Seq<char>)
    requires
        text_le(a, b),
        text_le(b, c),
    ensures
        text_le(a, c),
    decreases a.len(),
{
    if a.len() > 0 && b.len() > 0 && c.len() > 0 && a[0] == b[0] && b[0] == c[0] {
        lemma_text_le_transitive(a.drop_first(), b.drop_first(), c.drop_first());
    }
}

/// Whether `a` comes before `b` or equals it.
fn text_le_exec(a: &Vec<char>, b: &Vec<char>) -> (r: bool)
    ensures
        r == text_le(a@, b@),
{
    let mut i: usize = 0;
    assert(a@.skip(0) =~= a@);
    assert(b@.skip(0) =~= b@);
    while i < a.len() && i < b.len() && a[i] == b[i]
        invariant
            0 <= i <= a.len(),
            i <= b.len(),
            text_le(a@, b@) == text_le(a@.skip(i as int), b@.skip(i as int)),
        decreases a.len() - i,
    {
        proof {
            assert(a@.skip(i as int).drop_first() =~= a@.skip(i + 1));
            assert(b@.skip(i as int).drop_first() =~= b@.skip(i + 1));
        }
        i = i + 1;
    }
    if i == a.len() {
        true
    } else if i == b.len() {
        false
    } else {
        a[i] < b[i]
    }
}

/// The texts are in order.
pub open spec fn sorted_texts(s: Seq<Seq<char>>) -> bool {
    forall|i: int, j: int| 0 <= i < j < s.len() ==> text_le(#[trigger] s[i], #[trigger] s[j])
}

/// The host names in order, as the screen lists them: the same names, sorted.
pub fn sort_hostnames(names: Vec<String>) -> (sorted: Vec<String>)
    ensures
        sorted_texts(sorted.deep_view()),
        sorted.deep_view().to_multiset() == names.deep_view().to_multiset(),
{
    let mut sorted: Vec<String> = Vec::new();
    let mut keys: Vec<Vec<char>> = Vec::new();
    let mut n: usize = 0;
    assert(names.deep_view().take(0) =~= Seq::<Seq<char>>::empty());
    assert(sorted.deep_view() =~= Seq::<Seq<char>>::empty());
    while n < names.len()
        invariant
            0 <= n <= names.len(),
            keys.len() == sorted.len(),
            forall|k: int| 0 <= k < keys.len() ==> #[trigger] keys@[k]@ == sorted.deep_view()[k],
            sorted_texts(sorted.deep_view()),
            sorted.deep_view().to_multiset() == names.deep_view().take(n as int).to_multiset(),
        decreases names.len() - n,
    {
        let name = names[n].clone();
        let key = char_vec(name.as_str());
        assert(key@ == names.deep_view()[n as int]);
        let mut j: usize = 0;
        while j < keys.len() && text_le_exec(&keys[j], &key)
            invariant
                0 <= j <= keys.len(),
                keys.len() == sorted.len(),
                forall|k: int| 0 <= k < keys.len() ==> #[trigger] keys@[k]@ == sorted.deep_view()[k],
                forall|k: int| 0 <= k < j ==> text_le(#[trigger] sorted.deep_view()[k], key@),
            decreases keys.len() - j,
        {
            j = j + 1;
        }
        let ghost before = sorted.deep_view();
        proof {
            if j < keys.len() {
                assert(!text_le(before[j as int], key@));
                lemma_text_le_total(before[j as int], key@);
                assert forall|k: int| j <= k < before.len() implies text_le(key@, #[trigger] before[k]) by {
                    if k > j {
                        lemma_text_le_transitive(key@, before[j as int], before[k]);
                    }
                }
            }
        }
        sorted.insert(j, name);
        keys.insert(j, key);
        proof {
            assert(sorted.deep_view() =~= before.insert(j as int, key@));
            assert forall|a: int, b: int| 0 <= a < b < sorted.deep_view().len() implies
                text_le(#[trigger] sorted.deep_view()[a], #[trigger] sorted.deep_view()[b]) by {
                let s = sorted.deep_view();
                if a < j && b < j {
                } else if a < j && b == j {
                } else if a < j && b > j {
                    assert(s[b] == before[b - 1]);
                    assert(text_le(before[a], before[b - 1]));
                } else if a == j {
                    assert(s[b] == before[b - 1]);
                } else {
                    assert(s[a] == before[a - 1]);
                    assert(s[b] == before[b - 1]);
                }
            }
            assert forall|k: int| 0 <= k < keys.len() implies #[trigger] keys@[k]@ == sorted.deep_view()[k] by {
                if k < j {
                } else if k == j {
                } else {
                }
            }
            assert(names.deep_view().take(n + 1) =~= names.deep_view().take(n as int).push(key@));
            vstd::seq_lib::to_multiset_insert(before, j as int, key@);
            vstd::seq_lib::to_multiset_build(names.deep_view().take(n as int), key@);
            assert(sorted.deep_view().to_multiset() == before.to_multiset().insert(key@));
            assert(names.deep_view().take(n + 1).to_multiset()
                == names.deep_view().take(n as int).to_multiset().insert(key@));
        }
        n = n + 1;
    }
    assert(names.deep_view().take(names.len() as int) =~= names.deep_view());
    sorted
}

/// With `num_tabs` tabs, Left goes from tab `t` to `(t + num_tabs - 1) % num_tabs`, Right
/// to `(t + 1) % num_tabs`, and keys other than `q`, Esc, Left and Right keep the tab.
pub proof fn law_key_steps_modular(tab: isize, num_tabs: usize, c: char)
    requires
        1 <= num_tabs <= isize::MAX,
        0 <= tab < num_tabs,
        c != 'q',
    ensures
        key_step(tab, num_tabs, Key::Left) == KeyOutcome::Stay(((tab + num_tabs - 1) % (num_tabs as int)) as isize),
        key_step(tab, num_tabs, Key::Right) == KeyOutcome::Stay(((tab + 1) % (num_tabs as int)) as isize),
        key_step(tab, num_tabs, Key::Char(c)) == KeyOutcome::Stay(tab),
        key_step(tab, num_tabs, Key::Other) == KeyOutcome::Stay(tab),
{
    let n = num_tabs as int;
    let t = tab as int;
    if t == 0 {
        assert((t + n - 1) % n == n - 1) by (nonlinear_arith)
            requires
                t == 0,
                n >= 1,
        ;
    } else {
        assert((t + n - 1) % n == t - 1) by (nonlinear_arith)
            requires
                1 <= t < n,
        ;
    }
    if t + 1 == n {
        assert((t + 1) % n == 0) by (nonlinear_arith)
            requires
                t + 1 == n,
                n >= 1,
        ;
    } else {
        assert((t + 1) % n == t + 1) by (nonlinear_arith)
            requires
                0 <= t,
                t + 1 < n,
        ;
    }
}

/// The tab after a sequence of key presses from tab `tab`, or `None` once a key quits.
pub open spec fn tab_after_keys(tab: isize, num_tabs: usize, keys: Seq<Key>) -> Option<isize>
    decreases keys.len(),
{
    if keys.len() == 0 {
        Some(tab)
    } else {
        match key_step(tab, num_tabs, keys[0]) {
            KeyOutcome::Quit => None,
            KeyOutcome::Stay(t) => tab_after_keys(t, num_tabs, keys.drop_first()),
        }
    }
}

/// Starting from a tab in range (the screen starts on tab 0), every key press is allowed
/// and the tab stays in range until a key quits.
pub proof fn law_tab_in_range_after_keys(tab: isize, num_tabs: usize, keys: Seq<Key>)
    requires
        1 <= num_tabs <= isize::MAX,
        0 <= tab < num_tabs,
    ensures
        keys.len() > 0 ==> key_allowed(tab, num_tabs, keys[0]),
        tab_after_keys(tab, num_tabs, keys) matches Some(t) ==> 0 <= t < num_tabs,
    decreases keys.len(),
{
    if keys.len() > 0 {
        law_tab_stays_in_range(tab, num_tabs, keys[0]);
        if let KeyOutcome::Stay(t) = key_step(tab, num_tabs, keys[0]) {
            law_tab_in_range_after_keys(t, num_tabs, keys.drop_first());
        }
    }
}

/// A text comes before every text that it starts, and never after a longer such text:
/// `c1-1` sorts before `c1-10`, as `str` orders them.
pub proof fn law_text_le_prefix_first(a: Seq<char>, b: Seq<char>)
    ensures
        text_le(a, a + b),
        b.len() > 0 ==> !text_le(a + b, a),
    decreases a.len(),
{
    if a.len() > 0 {
        assert((a + b)[0] == a[0]);
        assert((a + b).drop_first() =~= a.drop_first() + b);
        law_text_le_prefix_first(a.drop_first(), b);
    } else {
        assert(a + b =~= b);
    }
}

/// Where two texts agree on their first `k` characters and differ at the next one, that
/// character decides their order.
pub proof fn law_text_le_first_difference(a: Seq<char>, b: Seq<char>, k: int)
    requires
        0 <= k < a.len(),
        k < b.len(),
        a.take(k) == b.take(k),
        a[k] != b[k],
    ensures
        text_le(a, b) <==> a[k] < b[k],
        text_le(b, a) <==> b[k] < a[k],
    decreases k,
{
    if k > 0 {
        assert(a[0] == a.take(k)[0]);
        assert(b[0] == b.take(k)[0]);
        assert(a.drop_first().take(k - 1) =~= a.take(k).drop_first());
        assert(b.drop_first().take(k - 1) =~= b.take(k).drop_first());
        law_text_le_first_difference(a.drop_first(), b.drop_first(), k - 1);
    }
}

} // verus!
