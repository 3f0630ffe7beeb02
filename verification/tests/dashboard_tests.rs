use nets::dashboard::{draw_due, lan_refresh, Dashboard, Key, PingPoll, Polled};

fn type_str(d: &mut Dashboard, s: &str) {
    for c in s.chars() {
        let o = d.handle_key(Key::Char(c));
        assert!(!o.quit);
    }
}

#[test]
fn starts_browsing_ports() {
    let d = Dashboard::new(None);
    assert_eq!(d.port_scroll(), 0);
    assert_eq!(d.lan_scroll(), 0);
    assert!(d.focus_ports());
    assert!(!d.filtering());
    assert!(!d.ping_window_open());
    assert_eq!(d.filter(), None);
    assert_eq!(d.effective_filter(), None);
}

#[test]
fn q_quits_outside_ping_window() {
    let mut d = Dashboard::new(None);
    let o = d.handle_key(Key::Char('q'));
    assert!(o.quit);
    assert!(!o.redraw);
    let mut d = Dashboard::new(None);
    d.handle_key(Key::Char('/'));
    assert!(d.handle_key(Key::Char('q')).quit);
}

#[test]
fn scrolling_saturates_and_undoes() {
    let mut d = Dashboard::new(None);
    assert!(d.handle_key(Key::Up).redraw);
    assert_eq!(d.port_scroll(), 0);
    d.handle_key(Key::PageDown);
    d.handle_key(Key::Down);
    assert_eq!(d.port_scroll(), 11);
    d.handle_key(Key::Up);
    assert_eq!(d.port_scroll(), 10);
    d.handle_key(Key::Tab);
    assert!(!d.focus_ports());
    d.handle_key(Key::Down);
    assert_eq!(d.lan_scroll(), 1);
    assert_eq!(d.port_scroll(), 10);
    d.handle_key(Key::BackTab);
    assert!(d.focus_ports());
    d.handle_key(Key::PageUp);
    d.handle_key(Key::PageUp);
    assert_eq!(d.port_scroll(), 0);
    assert!(!d.handle_key(Key::Other).redraw);
}

#[test]
fn typed_filter_is_applied_on_enter() {
    let mut d = Dashboard::new(None);
    d.handle_key(Key::Char('/'));
    assert!(d.filtering());
    assert!(d.shows_filter_box());
    type_str(&mut d, "sshx");
    d.handle_key(Key::Backspace);
    assert_eq!(d.filter_box_text(), "Filter: ssh");
    d.handle_key(Key::Enter);
    assert!(!d.filtering());
    assert_eq!(d.filter(), Some("ssh".to_string()));
    assert_eq!(d.effective_filter(), Some("ssh".to_string()));
    d.handle_key(Key::Char('/'));
    d.handle_key(Key::Enter);
    assert_eq!(d.filter(), None);
    d.handle_key(Key::Char('/'));
    type_str(&mut d, "abc");
    d.handle_key(Key::Esc);
    assert!(!d.filtering());
    assert_eq!(d.filter(), None);
}

#[test]
fn command_line_port_freezes_browsing() {
    let mut d = Dashboard::new(Some(8080));
    assert_eq!(d.effective_filter(), Some("8080".to_string()));
    for k in [Key::Char('/'), Key::Char('p'), Key::Down, Key::Tab, Key::PageDown] {
        let o = d.handle_key(k);
        assert!(!o.redraw && !o.quit);
    }
    assert_eq!(d.port_scroll(), 0);
    assert!(d.focus_ports());
    assert!(!d.ping_window_open());
    assert!(!d.shows_filter_box());
    assert!(d.handle_key(Key::Char('q')).quit);
}

#[test]
fn ping_window_flow() {
    let mut d = Dashboard::new(None);
    d.handle_key(Key::Char('p'));
    assert!(d.ping_window_open());
    assert_eq!(d.ping_input_text(), "<type host>");
    let o = d.handle_key(Key::Enter);
    assert!(o.ping_host.is_none());
    type_str(&mut d, "  example.org q ");
    assert_eq!(d.ping_input(), "  example.org q ");
    let o = d.handle_key(Key::Enter);
    assert_eq!(o.ping_host, Some("example.org q".to_string()));
    assert!(d.ping_in_progress());
    assert!(d.awaiting_ping());
    assert!(d.handle_key(Key::Enter).ping_host.is_none());
    assert_eq!(
        d.ping_lines(10),
        vec!["[Enter] to run, [ESC] to cancel", "", "Pinging.  "]
    );
    assert!(!d.ping_step(PingPoll::Pending));
    assert_eq!(d.ping_lines(10)[2], "Pinging.  ");
    assert!(!d.ping_step(PingPoll::Pending));
    assert_eq!(d.ping_lines(10)[2], "Pinging.. ");
    assert!(d.ping_step(PingPoll::Output("line1\nline2\r\nline3\n".to_string())));
    assert!(!d.awaiting_ping());
    assert_eq!(d.ping_output(), Some("line1\nline2\r\nline3\n".to_string()));
    assert_eq!(
        d.ping_lines(2),
        vec!["[Enter] to run, [ESC] to cancel", "", "--- Output ---", "line1", "line2"]
    );
    d.handle_key(Key::Esc);
    assert!(!d.ping_window_open());
    assert_eq!(d.ping_output(), None);
    assert_eq!(d.ping_lines(5), vec!["[Enter] to run, [ESC] to cancel"]);
}

#[test]
fn closed_ping_channel_reports_failure() {
    let mut d = Dashboard::new(None);
    d.handle_key(Key::Char('p'));
    type_str(&mut d, "h");
    d.handle_key(Key::Enter);
    assert!(d.ping_step(PingPoll::Disconnected));
    assert_eq!(d.ping_output(), Some("Ping failed: channel closed".to_string()));
    assert!(!d.ping_in_progress());
}

#[test]
fn escape_in_ping_window_forgets_ping() {
    let mut d = Dashboard::new(None);
    d.handle_key(Key::Char('p'));
    type_str(&mut d, "host");
    d.handle_key(Key::Enter);
    let o = d.handle_key(Key::Esc);
    assert!(o.redraw);
    assert!(!d.ping_in_progress());
    assert!(!d.ping_window_open());
    assert_eq!(d.ping_input(), "");
}

#[test]
fn rounds_that_draw() {
    assert!(draw_due(true, false, Polled::OtherEvent));
    assert!(draw_due(false, true, Polled::OtherEvent));
    assert!(draw_due(false, false, Polled::Timeout));
    assert!(draw_due(false, false, Polled::Key(true)));
    assert!(!draw_due(false, false, Polled::Key(false)));
    assert!(!draw_due(false, false, Polled::OtherEvent));
}

#[test]
fn lan_rescans_every_tenth_refresh() {
    assert_eq!(lan_refresh(0), (true, 1));
    assert_eq!(lan_refresh(1), (false, 2));
    assert_eq!(lan_refresh(10), (true, 11));
    assert_eq!(lan_refresh(u64::MAX), (false, 0));
    let due: Vec<u64> = (0..25).filter(|&t| lan_refresh(t).0).collect();
    assert_eq!(due, vec![0, 10, 20]);
}
