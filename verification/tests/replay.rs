use dsviz::event_controller::{ControllerStateCommand, EventController};
use dsviz::log_entities::LogEntry;
use dsviz::message::MessageStatus;
use dsviz::state::{InputSample, State, StateEvent};
use dsviz::utilities::{
    calc_dist, clip_coord, dist_sq, isqrt, prettify_json_string, remove_backslashes, Point,
    COORD_LIMIT, DEFAULT_GLOBAL_SPEED, GLOBAL_SPEED_DELTA, MAX_GLOBAL_SPEED, TIMERS_MAX_NUMBER,
};

fn p(x: i64, y: i64) -> Point {
    Point { x, y }
}

fn no_input() -> InputSample {
    InputSample {
        space_pressed: false,
        right_pressed: false,
        up_down: false,
        down_down: false,
        mouse_left_down: false,
        mouse_left_pressed: false,
        mouse_left_released: false,
        mouse_position: p(0, 0),
    }
}

fn ring() -> Vec<Point> {
    let mut v = Vec::new();
    for k in 0..TIMERS_MAX_NUMBER {
        v.push(p(30 + k as i64, 0));
    }
    v
}

fn started_state(names: &[&str]) -> State {
    let mut st = State::new();
    for (k, n) in names.iter().enumerate() {
        st.process_node_started(0, n.to_string(), k as u32, p(100 * (k as i64 + 1), 100));
    }
    st
}

#[test]
fn isqrt_exact_values() {
    assert_eq!(isqrt(0), 0);
    assert_eq!(isqrt(1), 1);
    assert_eq!(isqrt(3), 1);
    assert_eq!(isqrt(4), 2);
    assert_eq!(isqrt(24), 4);
    assert_eq!(isqrt(25), 5);
    assert_eq!(isqrt(1000000), 1000);
}

#[test]
fn distance_on_a_right_triangle() {
    assert_eq!(dist_sq(p(0, 0), p(3, 4)), 25);
    assert_eq!(calc_dist(p(0, 0), p(3, 4)), 5);
    assert_eq!(calc_dist(p(10, 10), p(10, 10)), 0);
}

#[test]
fn clip_keeps_the_working_range() {
    assert_eq!(clip_coord(COORD_LIMIT + 5), COORD_LIMIT);
    assert_eq!(clip_coord(-COORD_LIMIT - 5), -COORD_LIMIT);
    assert_eq!(clip_coord(42), 42);
}

#[test]
fn prettify_matches_the_json_printer() {
    let raw = "{\"a\":1,\"b\":[2,3]}";
    let ours = prettify_json_string(raw).unwrap();
    let value: serde_json::Value = serde_json::from_str(raw).unwrap();
    let expected = serde_json::to_string_pretty(&value).unwrap();
    assert_eq!(ours, expected);
    assert_ne!(ours, raw);
}

#[test]
fn prettify_rejects_bad_json() {
    assert!(prettify_json_string("{not json").is_none());
}

#[test]
fn backslashes_are_stripped() {
    assert_eq!(remove_backslashes("a\\b\\\\c"), "abc");
    assert_eq!(remove_backslashes("plain"), "plain");
    assert_eq!(remove_backslashes(""), "");
}

#[test]
fn new_state_is_empty_and_running() {
    let st = State::new();
    assert_eq!(st.nodes.len(), 0);
    assert!(!st.paused);
    assert_eq!(st.current_time, 0);
    assert_eq!(st.global_speed, DEFAULT_GLOBAL_SPEED);
    assert_eq!(st.node_colors.len(), 13);
}

#[test]
fn node_start_takes_a_palette_color_and_queues_the_event() {
    let mut st = State::new();
    let first_color = *st.node_colors.front().unwrap();
    st.process_node_started(5, "n1".to_string(), 1, p(100, 100));
    assert_eq!(st.nodes.len(), 1);
    assert_eq!(st.nodes[0].name, "n1");
    assert_eq!(st.nodes[0].color, first_color);
    assert!(!st.nodes[0].show);
    assert_eq!(st.nodes[0].free_timer_slots.len(), TIMERS_MAX_NUMBER);
    assert_eq!(st.event_queue.len(), 1);
    assert_eq!(st.ui_data.ordered_nodes, vec!["n1".to_string()]);
}

#[test]
fn node_started_event_shows_the_node_only_at_its_time() {
    let mut st = State::new();
    st.process_node_started(5, "n1".to_string(), 1, p(100, 100));
    // the clock stands at 0, before the event's time
    let early = st.process_event(5, StateEvent::NodeStarted("n1".to_string()));
    assert!(!early);
    assert!(!st.nodes[0].show);
    st.current_time = 5;
    let late = st.process_event(5, StateEvent::NodeStarted("n1".to_string()));
    assert!(late);
    assert!(st.nodes[0].show);
}

#[test]
fn a_message_to_a_dropping_destination_is_dropped_at_once() {
    let mut st = started_state(&["a", "b"]);
    st.current_time = 10;
    assert!(st.process_event(0, StateEvent::DropIncoming("b".to_string())));
    st.process_message_sent(
        "m1".to_string(),
        10,
        &"a".to_string(),
        &"b".to_string(),
        "ping".to_string(),
        "{}".to_string(),
        100,
        1,
    );
    assert!(st.process_event(10, StateEvent::MessageSent("m1".to_string())));
    assert_eq!(st.messages[0].status, MessageStatus::Dropped);
    assert_eq!(st.travelling_messages.len(), 0);
    assert_eq!(st.nodes[0].messages_sent, vec!["m1".to_string()]);
}

#[test]
fn a_message_on_an_open_link_starts_travelling() {
    let mut st = started_state(&["a", "b"]);
    st.current_time = 10;
    st.process_message_sent(
        "m1".to_string(),
        10,
        &"a".to_string(),
        &"b".to_string(),
        "ping".to_string(),
        "{}".to_string(),
        100,
        1,
    );
    assert!(st.process_event(10, StateEvent::MessageSent("m1".to_string())));
    assert_eq!(st.messages[0].status, MessageStatus::OnTheWay);
    assert_eq!(st.travelling_messages, vec![0]);
    // it starts on its source node
    assert_eq!(st.messages[0].pos, st.nodes[0].pos);
}

#[test]
fn first_message_sets_the_replay_speed() {
    let mut st = started_state(&["a", "b"]);
    st.process_message_sent(
        "m1".to_string(),
        0,
        &"a".to_string(),
        &"b".to_string(),
        "t".to_string(),
        "d".to_string(),
        5000,
        1,
    );
    assert_eq!(st.global_speed, 500);
}

#[test]
fn partition_disables_links_both_ways_and_reset_clears_them() {
    let mut st = started_state(&["a", "b", "c"]);
    st.current_time = 1;
    assert!(st.process_event(
        1,
        StateEvent::NetworkPartition((vec!["a".to_string()], vec![
            "b".to_string(),
            "c".to_string()
        ])),
    ));
    assert!(st.partition.is_some());
    assert_eq!(st.disabled_links.len(), 4);
    let has = |from: &str, to: &str| {
        st.disabled_links
            .iter()
            .any(|l| l.0 == from && l.1 == to)
    };
    assert!(has("a", "b") && has("b", "a") && has("a", "c") && has("c", "a"));
    assert!(!has("b", "c"));

    let mut st2 = st;
    assert!(st2.process_event(1, StateEvent::NetworkReset()));
    assert!(st2.partition.is_none());
    assert_eq!(st2.disabled_links.len(), 0);
    assert_eq!(st2.drop_incoming.len(), 0);
}

#[test]
fn timer_slots_are_handed_out_and_reused() {
    let mut st = started_state(&["a"]);
    st.current_time = 1;
    for k in 0..10 {
        st.process_timer_set(
            format!("t{}", k),
            format!("timer {}", k),
            1,
            "a".to_string(),
            50,
            if k == 0 { 3 } else { 1000 },
        );
    }
    // act on all ten queued timer events: the clock reaches 2
    let input = no_input();
    st.update(1, &input, &ring());
    let node = &st.nodes[0];
    assert_eq!(node.timers.len(), 10);
    // nine timers got the nine slots in order, the tenth waits
    for k in 0..9 {
        assert_eq!(node.timers[k].k, k as i32);
    }
    assert_eq!(node.timers[9].k, -1);
    assert_eq!(node.free_timer_slots.len(), 0);
    // the first timer is removed at time 3; the pass at time 4 frees its slot
    st.update(3, &input, &ring());
    let node = &st.nodes[0];
    assert_eq!(node.timers.len(), 9);
    // the freed slot goes to the waiting timer on the next pass
    st.update(4, &input, &ring());
    let node = &st.nodes[0];
    assert!(node.timers.iter().all(|t| t.k != -1));
}

#[test]
fn pause_freezes_the_clock_and_space_toggles_it() {
    let mut st = State::new();
    let mut input = no_input();
    st.update(100, &input, &ring());
    // the default speed is real time: 100 ticks pass
    assert_eq!(st.current_time, 100);
    input.space_pressed = true;
    st.update(200, &input, &ring());
    assert!(st.paused);
    assert_eq!(st.current_time, 100);
    assert_eq!(st.last_updated, 200);
    input.space_pressed = false;
    st.update(300, &input, &ring());
    assert!(st.paused);
    assert_eq!(st.current_time, 100);
}

#[test]
fn speed_keys_step_and_saturate() {
    let mut st = State::new();
    let mut input = no_input();
    input.up_down = true;
    st.check_keyboard_events(&input, &ring());
    assert_eq!(st.global_speed, DEFAULT_GLOBAL_SPEED + GLOBAL_SPEED_DELTA);
    input.up_down = false;
    input.down_down = true;
    st.check_keyboard_events(&input, &ring());
    st.check_keyboard_events(&input, &ring());
    assert_eq!(st.global_speed, DEFAULT_GLOBAL_SPEED - GLOBAL_SPEED_DELTA);
    st.global_speed = 5;
    st.check_keyboard_events(&input, &ring());
    assert_eq!(st.global_speed, 0);
    st.global_speed = MAX_GLOBAL_SPEED;
    input.down_down = false;
    input.up_down = true;
    st.check_keyboard_events(&input, &ring());
    assert_eq!(st.global_speed, MAX_GLOBAL_SPEED);
}

#[test]
fn the_right_key_scrubs_to_just_before_the_next_event() {
    let mut st = started_state(&["a"]);
    st.process_node_disconnected(500, "a".to_string());
    let mut input = no_input();
    input.right_pressed = true;
    st.check_keyboard_events(&input, &ring());
    // two queued events: the node start at 0 is first
    assert_eq!(st.current_time, 0);
    // drain the start event, then scrub toward the one at 500
    let run = no_input();
    st.update(1, &run, &ring());
    st.paused = false;
    st.current_time = 2;
    st.check_keyboard_events(&input, &ring());
    assert_eq!(st.current_time, 490);
}

#[test]
fn update_processes_due_events_in_order() {
    let mut st = started_state(&["a"]);
    st.process_node_disconnected(5, "a".to_string());
    st.process_node_connected(50000, "a".to_string());
    let input = no_input();
    st.update(10, &input, &ring());
    // the clock reached 10: the start and the disconnect ran, the
    // reconnect at 50000 still waits
    assert!(st.nodes[0].show);
    assert!(!st.nodes[0].connected);
    assert_eq!(st.event_queue.len(), 1);
}

#[test]
fn a_travelling_message_is_delivered_with_all_its_copies() {
    let mut st = started_state(&["a", "b"]);
    st.process_message_sent(
        "m1".to_string(),
        1,
        &"a".to_string(),
        &"b".to_string(),
        "t".to_string(),
        "d".to_string(),
        2,
        3,
    );
    st.global_speed = DEFAULT_GLOBAL_SPEED;
    let input = no_input();
    st.update(10, &input, &ring());
    // past its delivery time the message counts as arrived
    assert_eq!(st.travelling_messages.len(), 0);
    assert_eq!(st.messages[0].status, MessageStatus::Delivered);
    assert_eq!(st.nodes[1].messages_received.len(), 3);
    assert_eq!(st.nodes[1].messages_received[0], "m1");
}

#[test]
fn node_state_text_is_pretty_printed() {
    let mut st = started_state(&["a"]);
    st.current_time = 1;
    assert!(st.process_event(
        1,
        StateEvent::NodeStateUpdated(("a".to_string(), "{\"x\":1}".to_string())),
    ));
    let value: serde_json::Value = serde_json::from_str("{\"x\":1}").unwrap();
    let expected = serde_json::to_string_pretty(&value).unwrap();
    assert_eq!(st.nodes[0].state, expected);
    // a payload that is not JSON is kept as it came
    assert!(st.process_event(
        1,
        StateEvent::NodeStateUpdated(("a".to_string(), "broken{".to_string())),
    ));
    assert_eq!(st.nodes[0].state, "broken{");
}

#[test]
fn network_rows_mark_mutual_links() {
    let mut st = started_state(&["a", "b", "c"]);
    st.current_time = 1;
    assert!(st.process_event(
        1,
        StateEvent::LinkDisabled(("a".to_string(), "b".to_string()))
    ));
    assert!(st.process_event(
        1,
        StateEvent::LinkDisabled(("b".to_string(), "a".to_string()))
    ));
    assert!(st.process_event(
        1,
        StateEvent::LinkDisabled(("a".to_string(), "c".to_string()))
    ));
    let rows = st.network_link_rows();
    assert_eq!(rows.len(), 3);
    assert_eq!(rows[0], ("a".to_string(), "b".to_string(), true));
    assert_eq!(rows[1], ("b".to_string(), "a".to_string(), true));
    assert_eq!(rows[2], ("a".to_string(), "c".to_string(), false));
}

#[test]
fn mouse_picks_the_node_under_the_cursor() {
    let st = started_state(&["a", "b"]);
    assert_eq!(st.get_node_by_mouse_pos(p(105, 98)), Some("a".to_string()));
    assert_eq!(st.get_node_by_mouse_pos(p(500, 500)), None);
}

#[test]
fn dragging_moves_the_selected_node() {
    let mut st = started_state(&["a"]);
    let mut input = no_input();
    input.mouse_left_down = true;
    input.mouse_position = p(102, 101);
    st.check_keyboard_events(&input, &ring());
    assert_eq!(st.ui_data.selected_node, Some("a".to_string()));
    input.mouse_position = p(112, 121);
    st.check_keyboard_events(&input, &ring());
    assert_eq!(st.nodes[0].pos, p(110, 120));
    input.mouse_left_down = false;
    input.mouse_left_released = true;
    st.check_keyboard_events(&input, &ring());
    assert_eq!(st.ui_data.selected_node, None);
}

#[test]
fn parse_builds_one_command_per_acted_entry() {
    let entries = vec![
        LogEntry::NodeStarted { time: 0, node: "a".to_string(), node_id: 0 },
        LogEntry::NodeStarted { time: 0, node: "b".to_string(), node_id: 1 },
        LogEntry::ProcessStarted { time: 0, node: "a".to_string(), proc: "p".to_string() },
        LogEntry::MessageSent {
            time: 3,
            msg_id: "m1".to_string(),
            src_node: "a".to_string(),
            src_proc: "p".to_string(),
            dest_node: "b".to_string(),
            dest_proc: "q".to_string(),
            msg_tip: "ping".to_string(),
            msg_data: "{}".to_string(),
        },
        LogEntry::MessageReceived { time: 7, msg_id: "m1".to_string() },
        LogEntry::MessageReceived { time: 8, msg_id: "m1".to_string() },
        LogEntry::TimerSet {
            time: 4,
            timer_id: "t1".to_string(),
            timer_name: "retry".to_string(),
            node: "a".to_string(),
            proc: "p".to_string(),
            delay: 10,
        },
        LogEntry::TimerFired { time: 14, timer_id: "t1".to_string() },
    ];
    let positions = vec![p(100, 100), p(200, 100)];
    let mut ec = EventController::new();
    ec.parse_log(&entries, &positions);
    // the node starts, the send and the timer make commands; receipts and
    // the firing only fill in records
    assert_eq!(ec.commands.len(), 4);
    assert_eq!(ec.messages.len(), 1);
    assert_eq!(ec.messages[0].time_received, 8);
    assert_eq!(ec.messages[0].copies_received, 2);
    assert_eq!(ec.timers.len(), 1);
    assert_eq!(ec.timers[0].time_removed, 14);
    match &ec.commands[0].1 {
        ControllerStateCommand::NodeStarted(n) => {
            assert_eq!(n.name, "a");
            assert_eq!(n.pos, p(100, 100));
        },
        _ => panic!("expected a node start"),
    }
}

#[test]
fn send_commands_sorts_stably_and_replays() {
    let entries = vec![
        LogEntry::NodeStarted { time: 0, node: "a".to_string(), node_id: 0 },
        LogEntry::NodeStarted { time: 0, node: "b".to_string(), node_id: 1 },
        LogEntry::NodeDisconnected { time: 2, node: "b".to_string() },
        LogEntry::MessageSent {
            time: 1,
            msg_id: "m1".to_string(),
            src_node: "a".to_string(),
            src_proc: "p".to_string(),
            dest_node: "b".to_string(),
            dest_proc: "q".to_string(),
            msg_tip: "ping".to_string(),
            msg_data: "{}".to_string(),
        },
        LogEntry::MessageReceived { time: 6, msg_id: "m1".to_string() },
    ];
    let positions = vec![p(100, 100), p(200, 100)];
    let mut ec = EventController::new();
    ec.parse_log(&entries, &positions);
    let mut st = State::new();
    ec.send_commands(&mut st);
    // sorted by time; the two node starts at time 0 keep their order
    assert_eq!(ec.commands[0].0, 0);
    assert_eq!(ec.commands[1].0, 0);
    match (&ec.commands[0].1, &ec.commands[1].1) {
        (
            ControllerStateCommand::NodeStarted(n1),
            ControllerStateCommand::NodeStarted(n2),
        ) => {
            assert_eq!(n1.name, "a");
            assert_eq!(n2.name, "b");
        },
        _ => panic!("expected the node starts first"),
    }
    assert_eq!(ec.commands[2].0, 1);
    assert_eq!(ec.commands[3].0, 2);
    assert_eq!(st.nodes.len(), 2);
    assert_eq!(st.messages.len(), 1);
    // the receipt made the duration 5 ticks
    assert_eq!(st.messages[0].time_delivered, 6);
    assert_eq!(st.event_queue.len(), 4);
}

#[test]
fn timer_gauge_color_follows_the_clock() {
    let t = dsviz::timer::StateTimer::new(
        "t1".to_string(),
        "retry".to_string(),
        0,
        "a".to_string(),
        10,
        10,
    );
    assert_eq!(t.draw_color(0), dsviz::utilities::TIMER_COLOR);
    // at 95 percent of the removal time the gauge settles; the timer ran
    // its full delay, so it shows as fired
    assert_eq!(t.draw_color(10), dsviz::utilities::READY_TIMER_COLOR);
    let cancelled = dsviz::timer::StateTimer::new(
        "t2".to_string(),
        "retry".to_string(),
        0,
        "a".to_string(),
        10,
        4,
    );
    assert_eq!(cancelled.draw_color(9), dsviz::utilities::CANCELLED_TIMER_COLOR);
}

#[test]
fn a_message_moves_toward_its_destination() {
    let mut st = started_state(&["a", "b"]);
    st.process_message_sent(
        "m1".to_string(),
        0,
        &"a".to_string(),
        &"b".to_string(),
        "t".to_string(),
        "d".to_string(),
        10000,
        1,
    );
    st.global_speed = DEFAULT_GLOBAL_SPEED;
    let input = no_input();
    st.update(1, &input, &ring());
    assert_eq!(st.travelling_messages, vec![0usize]);
    let before = st.messages[0].pos;
    st.update(2, &input, &ring());
    let after = st.messages[0].pos;
    // the source sits at x=100, the destination at x=200: it moves right
    assert!(after.x > before.x || after == before);
    assert!(after.x <= 200);
}

#[test]
fn a_lost_message_travels_a_quarter_of_the_way_and_is_dropped() {
    let mut st = started_state(&["a", "b"]);
    // no receipt was recorded: zero copies mark the message as lost
    st.process_message_sent(
        "m1".to_string(),
        0,
        &"a".to_string(),
        &"b".to_string(),
        "t".to_string(),
        "d".to_string(),
        0,
        0,
    );
    let input = no_input();
    let mut now = 1u64;
    let mut dropped = false;
    for _ in 0..600 {
        st.update(now, &input, &ring());
        now += 1;
        if st.travelling_messages.is_empty() {
            dropped = true;
            break;
        }
    }
    assert!(dropped);
    assert_eq!(st.messages[0].status, MessageStatus::Dropped);
    // a lost message deposits nothing at its destination
    assert_eq!(st.nodes[1].messages_received.len(), 0);
    // it stopped about a quarter of the way from x=100 toward x=200
    assert!(st.messages[0].pos.x >= 124 && st.messages[0].pos.x <= 130);
}

#[test]
fn local_messages_reach_their_node_lists() {
    let entries = vec![
        LogEntry::NodeStarted { time: 0, node: "a".to_string(), node_id: 0 },
        LogEntry::LocalMessageSent {
            time: 1,
            msg_id: "l1".to_string(),
            node: "a".to_string(),
            proc: "p".to_string(),
            msg_tip: "tick".to_string(),
            msg_data: "{\"n\":1}".to_string(),
        },
        LogEntry::LocalMessageReceived {
            time: 2,
            msg_id: "l2".to_string(),
            node: "a".to_string(),
            proc: "p".to_string(),
            msg_tip: "tock".to_string(),
            msg_data: "{\"n\":2}".to_string(),
        },
    ];
    let positions = vec![p(100, 100)];
    let mut ec = EventController::new();
    ec.parse_log(&entries, &positions);
    // a sent local message's payload is stored pretty-printed, a received
    // one's as it came
    let value: serde_json::Value = serde_json::from_str("{\"n\":1}").unwrap();
    assert_eq!(ec.local_messages[0].data, serde_json::to_string_pretty(&value).unwrap());
    assert_eq!(ec.local_messages[1].data, "{\"n\":2}");
    let mut st = State::new();
    ec.send_commands(&mut st);
    let input = no_input();
    st.update(10, &input, &ring());
    assert_eq!(st.nodes[0].local_messages_sent.len(), 1);
    assert_eq!(st.nodes[0].local_messages_sent[0].id, "l1");
    assert_eq!(st.nodes[0].local_messages_received.len(), 1);
    assert_eq!(st.nodes[0].local_messages_received[0].id, "l2");
    assert!(st.local_messages.is_empty());
}

#[test]
fn a_message_close_to_its_destination_counts_as_delivered() {
    let mut st = started_state(&["a", "b"]);
    st.process_message_sent(
        "m1".to_string(),
        0,
        &"a".to_string(),
        &"b".to_string(),
        "t".to_string(),
        "d".to_string(),
        100000,
        1,
    );
    st.global_speed = DEFAULT_GLOBAL_SPEED;
    let input = no_input();
    st.update(1, &input, &ring());
    assert_eq!(st.travelling_messages, vec![0usize]);
    // put the dot four pixels from the destination: nearness delivers it
    // long before its recorded delivery time
    st.messages[0].pos = p(196, 100);
    st.update(2, &input, &ring());
    assert_eq!(st.messages[0].status, MessageStatus::Delivered);
    assert_eq!(st.nodes[1].messages_received, vec!["m1".to_string()]);
}

#[test]
fn a_forward_scrub_advances_travelling_messages() {
    let mut st = started_state(&["a", "b"]);
    st.process_message_sent(
        "m1".to_string(),
        0,
        &"a".to_string(),
        &"b".to_string(),
        "t".to_string(),
        "d".to_string(),
        100000,
        1,
    );
    st.global_speed = DEFAULT_GLOBAL_SPEED;
    // queue a far-away event to scrub toward
    st.process_node_disconnected(50000, "a".to_string());
    let input = no_input();
    st.update(1, &input, &ring());
    assert_eq!(st.travelling_messages, vec![0usize]);
    let before = st.messages[0].pos;
    let mut scrub = no_input();
    scrub.right_pressed = true;
    st.check_keyboard_events(&scrub, &ring());
    // the clock jumped to just before the disconnect, and the message
    // advanced toward its destination by the skipped time
    assert_eq!(st.current_time, 49990);
    let after = st.messages[0].pos;
    assert!(after.x > before.x);
    assert!(after.x <= 200);
}
