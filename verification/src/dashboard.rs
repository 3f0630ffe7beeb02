//! The dashboard's interaction state and how each key press and each check on
//! a running ping changes it.
//!
//! The event loop lives outside: it polls the terminal and the ping, hands the
//! key or the ping's state to these functions, and performs what they ask for
//! (quit, redraw, start a ping of a host).
use vstd::prelude::*;
use crate::text::{
    chars_of, decimal, lines, lines_of, push_decimal, push_str, string_from, trim, trim_chars,
    views,
};

verus! {

/// A key press, as the dashboard distinguishes them.
#[derive(Clone, Copy, Debug, PartialEq, Eq, Structural)]
pub enum Key {
    Char(char),
    Enter,
    Esc,
    Backspace,
    Tab,
    BackTab,
    Up,
    Down,
    PageUp,
    PageDown,
    Other,
}

/// What a check on a running ping found: no answer yet, the ping's output, or
/// that the ping can no longer answer.
pub enum PingPoll {
    Pending,
    Output(String),
    Disconnected,
}

/// What a key press asks of the event loop.
pub struct KeyOutcome {
    pub quit: bool,
    pub redraw: bool,
    /// A host to start pinging.
    pub ping_host: Option<String>,
}

/// The view of a `KeyOutcome`.
pub struct OutcomeView {
    pub quit: bool,
    pub redraw: bool,
    pub ping_host: Option<Seq<char>>,
}

impl View for KeyOutcome {
    type V = OutcomeView;

    open spec fn view(&self) -> OutcomeView {
        OutcomeView {
            quit: self.quit,
            redraw: self.redraw,
            ping_host: match self.ping_host {
                Some(h) => Some(h@),
                None => None,
            },
        }
    }
}

/// The interaction state of the dashboard.
pub struct Dashboard {
    filter: Option<String>,
    filter_input: String,
    filtering: bool,
    port_scroll: usize,
    lan_scroll: usize,
    focus_ports: bool,
    ping_modal: bool,
    ping_input: String,
    ping_output: Option<String>,
    ping_in_progress: bool,
    ping_anim_frame: u8,
    ping_anim_tick: u8,
    port_filter: Option<u16>,
}

/// The mathematical state of the dashboard: the applied text filter, the text
/// being typed as a filter, whether a filter is being typed, the scroll offsets
/// of both tables, which table has focus, the ping window (open, typed host,
/// last output, whether a ping runs, animation frame and tick), and the port
/// given on the command line.
pub struct DashboardView {
    pub filter: Option<Seq<char>>,
    pub filter_input: Seq<char>,
    pub filtering: bool,
    pub port_scroll: usize,
    pub lan_scroll: usize,
    pub focus_ports: bool,
    pub ping_modal: bool,
    pub ping_input: Seq<char>,
    pub ping_output: Option<Seq<char>>,
    pub ping_in_progress: bool,
    pub anim_frame: u8,
    pub anim_tick: u8,
    pub port_filter: Option<u16>,
}

/// The view of an optional text.
pub open spec fn text_opt(o: Option<String>) -> Option<Seq<char>> {
    match o {
        Some(s) => Some(s@),
        None => None,
    }
}

impl View for Dashboard {
    type V = DashboardView;

    closed spec fn view(&self) -> DashboardView {
        DashboardView {
            filter: text_opt(self.filter),
            filter_input: self.filter_input@,
            filtering: self.filtering,
            port_scroll: self.port_scroll,
            lan_scroll: self.lan_scroll,
            focus_ports: self.focus_ports,
            ping_modal: self.ping_modal,
            ping_input: self.ping_input@,
            ping_output: text_opt(self.ping_output),
            ping_in_progress: self.ping_in_progress,
            anim_frame: self.ping_anim_frame,
            anim_tick: self.ping_anim_tick,
            port_filter: self.port_filter,
        }
    }
}

/// The states the dashboard can be in: a ping runs only while its window is
/// open, and the animation counters stay in their ranges.
pub open spec fn view_wf(v: DashboardView) -> bool {
    &&& v.ping_in_progress ==> v.ping_modal
    &&& v.anim_frame < 3
    &&& v.anim_tick < 2
}

/// The state at start-up.
pub open spec fn initial(port_filter: Option<u16>) -> DashboardView {
    DashboardView {
        filter: None,
        filter_input: Seq::<char>::empty(),
        filtering: false,
        port_scroll: 0,
        lan_scroll: 0,
        focus_ports: true,
        ping_modal: false,
        ping_input: Seq::<char>::empty(),
        ping_output: None,
        ping_in_progress: false,
        anim_frame: 0,
        anim_tick: 0,
        port_filter,
    }
}

pub open spec fn nothing() -> OutcomeView {
    OutcomeView { quit: false, redraw: false, ping_host: None }
}

pub open spec fn redraw() -> OutcomeView {
    OutcomeView { quit: false, redraw: true, ping_host: None }
}

/// `s` without its last character, if it has one.
pub open spec fn pop_char(s: Seq<char>) -> Seq<char> {
    if s.len() > 0 {
        s.drop_last()
    } else {
        s
    }
}

/// A key in the open ping window: Esc closes it and forgets host, output and
/// running ping; Enter starts pinging the typed host (without surrounding
/// whitespace) unless it is empty or a ping runs; characters and Backspace
/// edit the host.
pub open spec fn ping_window_key(v: DashboardView, k: Key) -> (DashboardView, OutcomeView) {
    match k {
        Key::Esc => (
            DashboardView {
                ping_modal: false,
                ping_input: Seq::<char>::empty(),
                ping_output: None,
                ping_in_progress: false,
                ..v
            },
            redraw(),
        ),
        Key::Enter => {
            let host = trim(v.ping_input);
            if host.len() > 0 && !v.ping_in_progress {
                (
                    DashboardView { ping_in_progress: true, ping_output: None, ..v },
                    OutcomeView { quit: false, redraw: true, ping_host: Some(host) },
                )
            } else {
                (v, redraw())
            }
        },
        Key::Char(c) => (DashboardView { ping_input: v.ping_input.push(c), ..v }, redraw()),
        Key::Backspace => (DashboardView { ping_input: pop_char(v.ping_input), ..v }, redraw()),
        _ => (v, nothing()),
    }
}

/// A key while a filter is typed: Esc abandons it, Enter applies it (an empty
/// text removes the filter), characters and Backspace edit it.
pub open spec fn filter_entry_key(v: DashboardView, k: Key) -> (DashboardView, OutcomeView) {
    match k {
        Key::Esc => (
            DashboardView { filtering: false, filter_input: Seq::<char>::empty(), ..v },
            redraw(),
        ),
        Key::Enter => (
            DashboardView {
                filter: if v.filter_input.len() == 0 {
                    None
                } else {
                    Some(v.filter_input)
                },
                filtering: false,
                ..v
            },
            redraw(),
        ),
        Key::Char(c) => (DashboardView { filter_input: v.filter_input.push(c), ..v }, redraw()),
        Key::Backspace => (DashboardView { filter_input: pop_char(v.filter_input), ..v }, redraw()),
        _ => (v, nothing()),
    }
}

/// Scrolls the focused table down by `n` rows (saturating).
pub open spec fn scroll_down(v: DashboardView, n: usize) -> DashboardView {
    if v.focus_ports {
        DashboardView { port_scroll: v.port_scroll.saturating_add(n), ..v }
    } else {
        DashboardView { lan_scroll: v.lan_scroll.saturating_add(n), ..v }
    }
}

/// Scrolls the focused table up by `n` rows (stopping at the top).
pub open spec fn scroll_up(v: DashboardView, n: usize) -> DashboardView {
    if v.focus_ports {
        DashboardView { port_scroll: v.port_scroll.saturating_sub(n), ..v }
    } else {
        DashboardView { lan_scroll: v.lan_scroll.saturating_sub(n), ..v }
    }
}

/// A key in the plain dashboard: `/` starts typing a filter, `p` opens the ping
/// window, Tab switches the focused table, arrows scroll it by one row and
/// page keys by ten.
pub open spec fn browse_key(v: DashboardView, k: Key) -> (DashboardView, OutcomeView) {
    match k {
        Key::Char(c) => if c == '/' {
            (DashboardView { filtering: true, filter_input: Seq::<char>::empty(), ..v }, redraw())
        } else if c == 'p' {
            (
                DashboardView {
                    ping_modal: true,
                    ping_input: Seq::<char>::empty(),
                    ping_output: None,
                    ..v
                },
                redraw(),
            )
        } else {
            (v, nothing())
        },
        Key::Tab => (DashboardView { focus_ports: !v.focus_ports, ..v }, redraw()),
        Key::BackTab => (DashboardView { focus_ports: !v.focus_ports, ..v }, redraw()),
        Key::Down => (scroll_down(v, 1), redraw()),
        Key::Up => (scroll_up(v, 1), redraw()),
        Key::PageDown => (scroll_down(v, 10), redraw()),
        Key::PageUp => (scroll_up(v, 10), redraw()),
        _ => (v, nothing()),
    }
}

/// What a key press does: the ping window takes every key while it is open;
/// otherwise `q` quits; with a port given on the command line nothing else
/// responds; a filter being typed takes the keys; otherwise they browse.
pub open spec fn key_step(v: DashboardView, k: Key) -> (DashboardView, OutcomeView) {
    if v.ping_modal {
        ping_window_key(v, k)
    } else if k == Key::Char('q') {
        (v, OutcomeView { quit: true, redraw: false, ping_host: None })
    } else if v.port_filter is Some {
        (v, nothing())
    } else if v.filtering {
        filter_entry_key(v, k)
    } else {
        browse_key(v, k)
    }
}

/// The message shown when a ping can no longer answer.
pub open spec fn channel_closed_text() -> Seq<char> {
    "Ping failed: channel closed"@
}

/// A check on the running ping: its output ends it, a ping that can no longer
/// answer ends it with a failure message; then the animation advances one tick
/// (a frame every second tick). Returns the state and whether to redraw.
pub open spec fn ping_poll_step(v: DashboardView, poll: PingPoll) -> (DashboardView, bool) {
    let (w, changed) = match poll {
        PingPoll::Pending => (v, false),
        PingPoll::Output(s) => (
            DashboardView { ping_output: Some(s@), ping_in_progress: false, ..v },
            true,
        ),
        PingPoll::Disconnected => (
            DashboardView {
                ping_output: Some(channel_closed_text()),
                ping_in_progress: false,
                ..v
            },
            true,
        ),
    };
    let tick = ((w.anim_tick + 1) % 2) as u8;
    let frame = if tick == 0 {
        ((w.anim_frame + 1) % 3) as u8
    } else {
        w.anim_frame
    };
    (DashboardView { anim_tick: tick, anim_frame: frame, ..w }, changed)
}

fn clone_opt(o: &Option<String>) -> (r: Option<String>)
    ensures
        text_opt(r) == text_opt(*o),
{
    match o {
        Some(s) => Some(s.clone()),
        None => None,
    }
}

impl Dashboard {
    #[verifier::type_invariant]
    spec fn wf(self) -> bool {
        view_wf(self@)
    }

    /// The state at start-up, with the port given on the command line, if any.
    pub fn new(port_filter: Option<u16>) -> (d: Dashboard)
        ensures
            d@ == initial(port_filter),
    {
        let d = Dashboard {
            filter: None,
            filter_input: String::new(),
            filtering: false,
            port_scroll: 0,
            lan_scroll: 0,
            focus_ports: true,
            ping_modal: false,
            ping_input: String::new(),
            ping_output: None,
            ping_in_progress: false,
            ping_anim_frame: 0,
            ping_anim_tick: 0,
            port_filter,
        };
        assert(d@ == initial(port_filter));
        d
    }

    /// Handles a key press (see `key_step`).
    pub fn handle_key(&mut self, key: Key) -> (r: KeyOutcome)
        ensures
            (final(self)@, r@) == key_step(old(self)@, key),
    {
        proof {
            use_type_invariant(&*self);
        }
        if self.ping_modal {
            match key {
                Key::Esc => {
                    self.ping_in_progress = false;
                    self.ping_modal = false;
                    self.ping_input = String::new();
                    self.ping_output = None;
                    KeyOutcome { quit: false, redraw: true, ping_host: None }
                },
                Key::Enter => {
                    let input = chars_of(self.ping_input.as_str());
                    let host = trim_chars(input.as_slice());
                    if host.len() > 0 && !self.ping_in_progress {
                        self.ping_in_progress = true;
                        self.ping_output = None;
                        let h = string_from(host.as_slice());
                        KeyOutcome { quit: false, redraw: true, ping_host: Some(h) }
                    } else {
                        KeyOutcome { quit: false, redraw: true, ping_host: None }
                    }
                },
                Key::Char(c) => {
                    let mut s = String::new();
                    std::mem::swap(&mut s, &mut self.ping_input);
                    s.push(c);
                    self.ping_input = s;
                    KeyOutcome { quit: false, redraw: true, ping_host: None }
                },
                Key::Backspace => {
                    let mut s = String::new();
                    std::mem::swap(&mut s, &mut self.ping_input);
                    s.pop();
                    self.ping_input = s;
                    KeyOutcome { quit: false, redraw: true, ping_host: None }
                },
                _ => KeyOutcome { quit: false, redraw: false, ping_host: None },
            }
        } else if key == Key::Char('q') {
            KeyOutcome { quit: true, redraw: false, ping_host: None }
        } else if self.port_filter.is_some() {
            KeyOutcome { quit: false, redraw: false, ping_host: None }
        } else if self.filtering {
            match key {
                Key::Esc => {
                    self.filtering = false;
                    self.filter_input = String::new();
                    KeyOutcome { quit: false, redraw: true, ping_host: None }
                },
                Key::Enter => {
                    self.filter = if self.filter_input.as_str().is_empty() {
                        None
                    } else {
                        Some(self.filter_input.clone())
                    };
                    self.filtering = false;
                    KeyOutcome { quit: false, redraw: true, ping_host: None }
                },
                Key::Char(c) => {
                    let mut s = String::new();
                    std::mem::swap(&mut s, &mut self.filter_input);
                    s.push(c);
                    self.filter_input = s;
                    KeyOutcome { quit: false, redraw: true, ping_host: None }
                },
                Key::Backspace => {
                    let mut s = String::new();
                    std::mem::swap(&mut s, &mut self.filter_input);
                    s.pop();
                    self.filter_input = s;
                    KeyOutcome { quit: false, redraw: true, ping_host: None }
                },
                _ => KeyOutcome { quit: false, redraw: false, ping_host: None },
            }
        } else {
            match key {
                Key::Char(c) => {
                    if c == '/' {
                        self.filtering = true;
                        self.filter_input = String::new();
                        KeyOutcome { quit: false, redraw: true, ping_host: None }
                    } else if c == 'p' {
                        self.ping_modal = true;
                        self.ping_input = String::new();
                        self.ping_output = None;
                        KeyOutcome { quit: false, redraw: true, ping_host: None }
                    } else {
                        KeyOutcome { quit: false, redraw: false, ping_host: None }
                    }
                },
                Key::Tab | Key::BackTab => {
                    self.focus_ports = !self.focus_ports;
                    KeyOutcome { quit: false, redraw: true, ping_host: None }
                },
                Key::Down => {
                    self.scroll_by(1, true);
                    KeyOutcome { quit: false, redraw: true, ping_host: None }
                },
                Key::Up => {
                    self.scroll_by(1, false);
                    KeyOutcome { quit: false, redraw: true, ping_host: None }
                },
                Key::PageDown => {
                    self.scroll_by(10, true);
                    KeyOutcome { quit: false, redraw: true, ping_host: None }
                },
                Key::PageUp => {
                    self.scroll_by(10, false);
                    KeyOutcome { quit: false, redraw: true, ping_host: None }
                },
                _ => KeyOutcome { quit: false, redraw: false, ping_host: None },
            }
        }
    }

    fn scroll_by(&mut self, n: usize, down: bool)
        ensures
            final(self)@ == if down {
                scroll_down(old(self)@, n)
            } else {
                scroll_up(old(self)@, n)
            },
    {
        proof {
            use_type_invariant(&*self);
        }
        if self.focus_ports {
            self.port_scroll = if down {
                self.port_scroll.saturating_add(n)
            } else {
                self.port_scroll.saturating_sub(n)
            };
        } else {
            self.lan_scroll = if down {
                self.lan_scroll.saturating_add(n)
            } else {
                self.lan_scroll.saturating_sub(n)
            };
        }
    }

    /// Whether a ping runs, so that its answer should be checked.
    pub fn awaiting_ping(&self) -> (b: bool)
        ensures
            b == (self@.ping_modal && self@.ping_in_progress),
    {
        self.ping_modal && self.ping_in_progress
    }

    /// Takes the result of a check on the running ping (see `ping_poll_step`);
    /// returns whether to redraw.
    pub fn ping_step(&mut self, poll: PingPoll) -> (redraw: bool)
        requires
            old(self)@.ping_modal && old(self)@.ping_in_progress,
        ensures
            (final(self)@, redraw) == ping_poll_step(old(self)@, poll),
    {
        proof {
            use_type_invariant(&*self);
        }
        let changed = match poll {
            PingPoll::Pending => false,
            PingPoll::Output(s) => {
                self.ping_output = Some(s);
                self.ping_in_progress = false;
                true
            },
            PingPoll::Disconnected => {
                self.ping_output = Some("Ping failed: channel closed".to_owned());
                self.ping_in_progress = false;
                true
            },
        };
        self.ping_anim_tick = (self.ping_anim_tick + 1) % 2;
        if self.ping_anim_tick == 0 {
            self.ping_anim_frame = (self.ping_anim_frame + 1) % 3;
        }
        changed
    }

    /// The filter the ports table applies: the command-line port as text when one
    /// was given, else the applied text filter.
    pub fn effective_filter(&self) -> (r: Option<String>)
        ensures
            text_opt(r) == match self@.port_filter {
                Some(p) => Some(decimal(p as nat)),
                None => self@.filter,
            },
    {
        match self.port_filter {
            Some(p) => {
                let mut s = String::new();
                push_decimal(&mut s, p as u64);
                Some(s)
            },
            None => clone_opt(&self.filter),
        }
    }

    /// Whether the filter entry box is shown.
    pub fn shows_filter_box(&self) -> (b: bool)
        ensures
            b == (self@.filtering && self@.port_filter is None),
    {
        self.filtering && self.port_filter.is_none()
    }

    /// The text of the filter entry box.
    pub fn filter_box_text(&self) -> (s: String)
        ensures
            s@ == "Filter: "@ + self@.filter_input,
    {
        let mut s = String::new();
        push_str(&mut s, "Filter: ");
        push_str(&mut s, self.filter_input.as_str());
        s
    }

    /// Whether the ping window is open.
    pub fn ping_window_open(&self) -> (b: bool)
        ensures
            b == self@.ping_modal,
    {
        self.ping_modal
    }

    /// The host field of the ping window: the typed host, or a hint when empty.
    pub fn ping_input_text(&self) -> (s: String)
        ensures
            s@ == if self@.ping_input.len() == 0 {
                "<type host>"@
            } else {
                self@.ping_input
            },
    {
        if self.ping_input.as_str().is_empty() {
            "<type host>".to_owned()
        } else {
            self.ping_input.clone()
        }
    }

    /// The typed host as it stands.
    pub fn ping_input(&self) -> (s: &String)
        ensures
            s@ == self@.ping_input,
    {
        &self.ping_input
    }

    /// The lines of the ping window below the host field: the key help; while a
    /// ping runs, a blank line and the animated "Pinging" line; otherwise, when
    /// there is output, a blank line, a caption and the first `max_output_lines`
    /// lines of the output.
    pub fn ping_lines(&self, max_output_lines: usize) -> (r: Vec<String>)
        ensures
            crate::tables::string_views(r@) == ping_lines_spec(self@, max_output_lines as nat),
    {
        proof {
            use_type_invariant(self);
        }
        let mut r: Vec<String> = Vec::new();
        r.push("[Enter] to run, [ESC] to cancel".to_owned());
        if self.ping_in_progress {
            r.push("".to_owned());
            let mut s = String::new();
            push_str(&mut s, "Pinging");
            if self.ping_anim_frame == 0 {
                push_str(&mut s, ".  ");
            } else if self.ping_anim_frame == 1 {
                push_str(&mut s, ".. ");
            } else {
                push_str(&mut s, "...");
            }
            r.push(s);
            assert(crate::tables::string_views(r@) =~= ping_lines_spec(
                self@,
                max_output_lines as nat,
            ));
        } else {
            match &self.ping_output {
                Some(out) => {
                    r.push("".to_owned());
                    r.push("--- Output ---".to_owned());
                    let ghost head = crate::tables::string_views(r@);
                    let ls = lines_of(chars_of(out.as_str()).as_slice());
                    let mut i: usize = 0;
                    while i < ls.len() && i < max_output_lines
                        invariant
                            i <= ls@.len(),
                            i <= max_output_lines,
                            views(ls@) == lines(out@),
                            r@.len() == 3 + i,
                            crate::tables::string_views(r@) == head + views(ls@).take(i as int),
                        decreases ls@.len() - i,
                    {
                        let ghost before = r@;
                        r.push(string_from(ls[i].as_slice()));
                        proof {
                            assert(views(ls@).take(i + 1) == views(ls@).take(i as int).push(
                                ls@[i as int]@,
                            ));
                            assert(crate::tables::string_views(r@) =~= crate::tables::string_views(
                                before,
                            ).push(ls@[i as int]@));
                        }
                        i = i + 1;
                    }
                    proof {
                        let n = if lines(out@).len() < max_output_lines {
                            lines(out@).len()
                        } else {
                            max_output_lines as nat
                        };
                        assert(i == n);
                        assert(crate::tables::string_views(r@) =~= ping_lines_spec(
                            self@,
                            max_output_lines as nat,
                        ));
                    }
                },
                None => {
                    assert(crate::tables::string_views(r@) =~= ping_lines_spec(
                        self@,
                        max_output_lines as nat,
                    ));
                },
            }
        }
        r
    }

    /// The scroll offset asked for in the ports table.
    pub fn port_scroll(&self) -> (r: usize)
        ensures
            r == self@.port_scroll,
    {
        self.port_scroll
    }

    /// The scroll offset asked for in the devices table.
    pub fn lan_scroll(&self) -> (r: usize)
        ensures
            r == self@.lan_scroll,
    {
        self.lan_scroll
    }

    /// Whether the ports table has focus (else the devices table has).
    pub fn focus_ports(&self) -> (r: bool)
        ensures
            r == self@.focus_ports,
    {
        self.focus_ports
    }

    /// Whether a filter is being typed.
    pub fn filtering(&self) -> (r: bool)
        ensures
            r == self@.filtering,
    {
        self.filtering
    }

    /// Whether a ping runs.
    pub fn ping_in_progress(&self) -> (r: bool)
        ensures
            r == self@.ping_in_progress,
    {
        self.ping_in_progress
    }

    /// The applied text filter.
    pub fn filter(&self) -> (r: Option<String>)
        ensures
            text_opt(r) == self@.filter,
    {
        clone_opt(&self.filter)
    }

    /// The last ping output.
    pub fn ping_output(&self) -> (r: Option<String>)
        ensures
            text_opt(r) == self@.ping_output,
    {
        clone_opt(&self.ping_output)
    }
}

/// What polling the terminal gave in one round of the event loop: a key (with
/// whether handling it asked for a redraw), another event, or nothing before
/// the poll timed out.
pub enum Polled {
    Key(bool),
    OtherEvent,
    Timeout,
}

/// Whether a round of the event loop draws: always on the first round; else
/// when the check on a running ping or the key asked for it, or when the poll
/// timed out (the periodic redraw). Another event alone does not.
pub open spec fn draw_due_spec(first_round: bool, ping_redraw: bool, polled: Polled) -> bool {
    first_round || ping_redraw || match polled {
        Polled::Key(r) => r,
        Polled::OtherEvent => false,
        Polled::Timeout => true,
    }
}

/// Whether a round of the event loop draws (see `draw_due_spec`).
pub fn draw_due(first_round: bool, ping_redraw: bool, polled: Polled) -> (b: bool)
    ensures
        b == draw_due_spec(first_round, ping_redraw, polled),
{
    first_round || ping_redraw || match polled {
        Polled::Key(r) => r,
        Polled::OtherEvent => false,
        Polled::Timeout => true,
    }
}

/// One refresh of the device list: whether this refresh rescans the network
/// (every tenth, starting with the first) and the next refresh counter, which
/// wraps around after the largest value.
pub fn lan_refresh(tick: u64) -> (r: (bool, u64))
    ensures
        r.0 == (tick % 10 == 0),
        r.1 == if tick == u64::MAX {
            0
        } else {
            (tick + 1) as u64
        },
{
    (tick % 10 == 0, tick.wrapping_add(1))
}

/// The dots of the ping animation frame.
pub open spec fn dots(frame: u8) -> Seq<char> {
    if frame == 0 {
        ".  "@
    } else if frame == 1 {
        ".. "@
    } else {
        "..."@
    }
}

/// The lines of the ping window below the host field (see `ping_lines`).
pub open spec fn ping_lines_spec(v: DashboardView, max_output_lines: nat) -> Seq<Seq<char>> {
    let help = seq!["[Enter] to run, [ESC] to cancel"@];
    if v.ping_in_progress {
        help + seq![""@, "Pinging"@ + dots(v.anim_frame)]
    } else {
        match v.ping_output {
            Some(out) => {
                let ls = lines(out);
                let n = if ls.len() < max_output_lines {
                    ls.len()
                } else {
                    max_output_lines
                };
                help + seq![""@, "--- Output ---"@] + ls.take(n as int)
            },
            None => help,
        }
    }
}


/// The start-up state is one the dashboard can be in, and every key press and
/// every check on a running ping keeps the dashboard in such states: a ping
/// runs only while its window is open.
pub proof fn law_steps_keep_wf(v: DashboardView, k: Key, poll: PingPoll)
    requires
        view_wf(v),
    ensures
        view_wf(initial(v.port_filter)),
        view_wf(key_step(v, k).0),
        v.ping_modal && v.ping_in_progress ==> view_wf(ping_poll_step(v, poll).0),
{
}

/// Outside the ping window `q` quits and changes nothing; inside it, `q` is
/// typed into the host.
pub proof fn law_q_quits(v: DashboardView)
    ensures
        !v.ping_modal ==> key_step(v, Key::Char('q')) == (v, OutcomeView {
            quit: true,
            redraw: false,
            ping_host: None,
        }),
        v.ping_modal ==> key_step(v, Key::Char('q')).0.ping_input == v.ping_input.push('q')
            && !key_step(v, Key::Char('q')).1.quit,
{
}

/// The state in which keys browse the tables.
pub open spec fn browsing(v: DashboardView) -> bool {
    !v.ping_modal && !v.filtering && v.port_filter is None
}

/// Scrolling down and then up again returns to the same state, unless the
/// offset was already at its largest value.
pub proof fn law_scroll_down_up(v: DashboardView)
    requires
        browsing(v),
        v.focus_ports ==> v.port_scroll < usize::MAX - 10,
        !v.focus_ports ==> v.lan_scroll < usize::MAX - 10,
    ensures
        key_step(key_step(v, Key::Down).0, Key::Up).0 == v,
        key_step(key_step(v, Key::PageDown).0, Key::PageUp).0 == v,
{
}

/// Switching focus twice returns to the same state.
pub proof fn law_tab_twice(v: DashboardView)
    requires
        browsing(v),
    ensures
        key_step(key_step(v, Key::Tab).0, Key::Tab).0 == v,
        key_step(key_step(v, Key::BackTab).0, Key::Tab).0 == v,
{
}

/// With a port given on the command line, no key but `q` changes anything
/// outside the ping window (which then cannot be opened).
pub proof fn law_port_filter_freezes(v: DashboardView, k: Key)
    requires
        !v.ping_modal,
        v.port_filter is Some,
        k != Key::Char('q'),
    ensures
        key_step(v, k) == (v, nothing()),
{
}

/// Esc closes the ping window and forgets its host, output and running ping.
pub proof fn law_escape_closes_ping(v: DashboardView)
    requires
        v.ping_modal,
    ensures
        !key_step(v, Key::Esc).0.ping_modal,
        !key_step(v, Key::Esc).0.ping_in_progress,
        key_step(v, Key::Esc).0.ping_input.len() == 0,
        key_step(v, Key::Esc).0.ping_output is None,
        key_step(v, Key::Esc).1.ping_host is None,
{
}

/// A ping is asked for only by Enter in the open window while none runs; the
/// host is the typed text without surrounding whitespace, never empty, and the
/// ping then counts as running.
pub proof fn law_ping_request(v: DashboardView, k: Key)
    ensures
        key_step(v, k).1.ping_host matches Some(h) ==> {
            &&& v.ping_modal
            &&& k == Key::Enter
            &&& !v.ping_in_progress
            &&& h == trim(v.ping_input)
            &&& h.len() > 0
            &&& key_step(v, k).0.ping_in_progress
        },
{
}

/// The answer of a running ping ends it and becomes the window's output.
pub proof fn law_ping_answer(v: DashboardView, out: String)
    requires
        v.ping_modal && v.ping_in_progress,
    ensures
        !ping_poll_step(v, PingPoll::Output(out)).0.ping_in_progress,
        ping_poll_step(v, PingPoll::Output(out)).0.ping_output == Some(out@),
        ping_poll_step(v, PingPoll::Output(out)).1,
{
}

/// The state after typing the characters of `s` one key at a time.
pub open spec fn type_text(v: DashboardView, s: Seq<char>) -> DashboardView
    decreases s.len(),
{
    if s.len() == 0 {
        v
    } else {
        key_step(type_text(v, s.drop_last()), Key::Char(s.last())).0
    }
}

proof fn lemma_type_filter(v: DashboardView, s: Seq<char>)
    requires
        !v.ping_modal,
        v.filtering,
        v.port_filter is None,
        !s.contains('q'),
    ensures
        type_text(v, s) == (DashboardView { filter_input: v.filter_input + s, ..v }),
    decreases s.len(),
{
    if s.len() > 0 {
        assert(!s.drop_last().contains('q')) by {
            if s.drop_last().contains('q') {
                let i = choose|i: int| 0 <= i < s.drop_last().len() && s.drop_last()[i] == 'q';
                assert(s[i] == 'q');
            }
        }
        lemma_type_filter(v, s.drop_last());
        assert(s.last() != 'q') by {
            assert(s[s.len() - 1] == s.last());
        }
        assert(v.filter_input + s.drop_last() + seq![s.last()] =~= v.filter_input + s);
        assert((v.filter_input + s.drop_last()).push(s.last()) =~= v.filter_input + s);
    } else {
        assert(v.filter_input + s =~= v.filter_input);
    }
}

/// Typing `/`, then a text without `q` (which quits), then Enter applies that
/// text as the filter; an empty text removes the filter.
pub proof fn law_typed_filter_applies(v: DashboardView, s: Seq<char>)
    requires
        browsing(v),
        !s.contains('q'),
    ensures
        key_step(type_text(key_step(v, Key::Char('/')).0, s), Key::Enter).0.filter == if s.len()
            == 0 {
            None
        } else {
            Some(s)
        },
        !key_step(type_text(key_step(v, Key::Char('/')).0, s), Key::Enter).0.filtering,
{
    let w = key_step(v, Key::Char('/')).0;
    lemma_type_filter(w, s);
    assert(w.filter_input + s =~= s);
}


/// The applied filter changes only by Enter while a filter is typed (outside
/// the ping window, with no port on the command line): every other key, Esc
/// included, leaves it as it was.
pub proof fn law_filter_changes_only_on_enter(v: DashboardView, k: Key)
    requires
        !(k == Key::Enter && v.filtering && !v.ping_modal && v.port_filter is None),
    ensures
        key_step(v, k).0.filter == v.filter,
{
}

/// Esc while a filter is typed abandons the typed text and keeps the applied
/// filter.
pub proof fn law_escape_keeps_filter(v: DashboardView)
    requires
        v.filtering,
        !v.ping_modal,
        v.port_filter is None,
    ensures
        key_step(v, Key::Esc).0.filter == v.filter,
        !key_step(v, Key::Esc).0.filtering,
        key_step(v, Key::Esc).0.filter_input.len() == 0,
{
}

/// In the open ping window with no ping running, Enter asks for a ping of the
/// typed host without surrounding whitespace whenever that is not empty,
/// whatever output an earlier ping left.
pub proof fn law_enter_requests_ping(v: DashboardView)
    requires
        v.ping_modal,
        !v.ping_in_progress,
        trim(v.ping_input).len() > 0,
    ensures
        key_step(v, Key::Enter).1.ping_host == Some(trim(v.ping_input)),
        key_step(v, Key::Enter).0.ping_in_progress,
        key_step(v, Key::Enter).0.ping_output is None,
{
}

} // verus!
