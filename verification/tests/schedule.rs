use horde::agent::{Activity, AgentClass, AgentRuntime};
use horde::clock::now_millis;
use horde::engine::Engine;
use horde::firing::Deed;
use horde::journal::{Happening, Journal};
use horde::proto::AgentState;
use horde::recents::Recents;
use horde::schedule::{
    day_allowed, describe_days, format_clock, format_date, last_occurrence, parse_at, parse_days,
    parse_duration, parse_every, secs_words, LocalTime, ScheduleError, When, EVERY_DAY,
};
use horde::state::{Bars, Session};
use horde::succession::live_spawned;
use horde::tasks::Board;
use horde::triggers::{
    owner_tag, perform, sent_phrase, Firing, ProbeAnswer, Step, Store, Trigger, TriggerError, What,
    HOUR, MAX_PER_HOUR, PROBE_TIMEOUT,
};

const BARS: Bars = Bars { tab_bar: true, status_bar: true, pane_titles: true };

/// A clock set to UTC.
fn utc(now: u64) -> LocalTime {
    let secs = now / 1000;
    LocalTime {
        hour: ((secs / 3600) % 24) as u32,
        min: ((secs / 60) % 60) as u32,
        sec: (secs % 60) as u32,
        wday: ((secs / 86_400 + 4) % 7) as u32,
    }
}

fn due(t: &Trigger, now: u64) -> bool {
    let at = t.schedule_point(now, utc(now));
    t.is_due(now, utc(now), utc(at).wday)
}

fn task_what() -> What {
    What::Task { text: "review yesterday's diff".into() }
}

fn spawn_what() -> What {
    What::Spawn { cmd: "cat".into(), name: Some("nightly".into()) }
}

fn rule(when: When, created: u64) -> Trigger {
    Trigger {
        id: 1,
        when,
        what: task_what(),
        enabled: true,
        created,
        by: "user".into(),
        space: None,
        last_fired: None,
        fire_count: 0,
        only_if: None,
        last_eval: None,
        deleted: false,
    }
}

/// An engine with one idle agent in it, and what came of firing.
struct Bench {
    engine: Engine,
    journal: Journal,
    unattended: bool,
    board_on: bool,
    cap: usize,
    now: u64,
    sent: Vec<(String, String)>,
    /// What each started condition says, by trigger.
    answers: Vec<(u64, ProbeAnswer)>,
}

fn worker(name: &str) -> AgentRuntime {
    AgentRuntime {
        kind: "codex".into(),
        name: name.into(),
        class: AgentClass::Agent,
        state: AgentState::Idle,
        since: 0,
        authority: "hook".into(),
        reason: "t".into(),
        seen: false,
        session_id: None,
        queued: Vec::new(),
        question: None,
        activity: Activity::none(),
        touched: Vec::new(),
        nudged_since: None,
        alerted_since: None,
    }
}

impl Bench {
    fn new() -> Bench {
        let mut session = Session::new(true, false, 24, 30);
        session.create_space(BARS, "cat", Some("main"), "/tmp").unwrap();
        session.panes[0].life.agent = Some(worker("worker0"));
        Bench {
            engine: Engine::new(
                session,
                Board::new(Vec::new()),
                Store::new(Vec::new()),
                Recents { list: Vec::new() },
                1_000,
            ),
            journal: Journal::new(),
            unattended: true,
            board_on: true,
            cap: 3,
            now: now_millis(),
            sent: Vec::new(),
            answers: Vec::new(),
        }
    }

    fn add(&mut self, what: What, only_if: Option<&str>) -> u64 {
        let cond = only_if.map(|s| s.to_string());
        self.engine
            .triggers
            .add_at(When::Every { secs: 60 }, what, "user", cond, None, self.now)
            .unwrap()
            .id
    }

    fn wind_back(&mut self, id: u64, ms_ago: u64) {
        let then = self.now - ms_ago;
        let t = self.engine.triggers.triggers.iter_mut().find(|t| t.id == id).unwrap();
        t.created = then;
        t.last_fired = t.last_fired.map(|_| then);
        t.last_eval = t.last_eval.map(|_| then);
    }

    /// What the journal says was fired.
    fn fired(&self) -> Vec<String> {
        self.journal
            .entries
            .iter()
            .filter_map(|e| match &e.what {
                Happening::Fired(line) => Some(line.clone()),
                _ => None,
            })
            .collect()
    }

    /// Push a line at an agent that is there.
    fn send(&mut self, to: &str, body: String) -> Result<String, String> {
        let there = self
            .engine
            .session
            .panes
            .iter()
            .any(|p| p.life.agent.as_ref().is_some_and(|a| a.name == to));
        if !there {
            return Err(format!("no agent called {to}"));
        }
        self.sent.push((to.to_string(), body));
        Ok(sent_phrase(to))
    }

    fn fire_due(&mut self) -> Vec<String> {
        let now = self.now;
        let points = self.engine.triggers.schedule_points(now, utc(now));
        let wdays: Vec<u32> = points.iter().map(|p| utc(*p).wday).collect();
        let Firing { mut notices, ids } = self.engine.triggers.fire_due(
            &self.engine.board,
            self.unattended,
            self.journal.fired_within(HOUR, now),
            now,
            utc(now),
            &wdays,
        );
        for id in ids {
            let answer = self
                .answers
                .iter()
                .find(|a| a.0 == id)
                .map(|a| a.1)
                .unwrap_or(ProbeAnswer::Pending);
            match self.engine.triggers.step(id, answer, now) {
                Step::Hold => {}
                Step::Warn(w) => notices.push(w),
                Step::Probe(_) => self.engine.triggers.probe_started(id, now),
                Step::Go => {
                    let t = self.engine.triggers.get(id).unwrap().clone();
                    let (on, cap) = (self.board_on, self.cap);
                    let done = match self.engine.carry_out(&t, on, cap, BARS, "cat", true, now) {
                        Ok(Deed::Done(what)) => Ok(what),
                        Ok(Deed::Send { to, body }) => self.send(&to, body),
                        Err(why) => Err(why),
                    };
                    let told = done.as_ref().map(|w| w.as_str()).map_err(|w| w.as_str());
                    let r = self.engine.triggers.settle(id, told, now);
                    if let Some(line) = r.journal {
                        self.journal.note(Happening::Fired(line), now);
                    }
                    if let Some(n) = r.notice {
                        notices.push(n);
                    }
                }
            }
        }
        notices
    }
}

// -- the store ------------------------------------------------------------

#[test]
fn triggers_are_numbered_and_enabled_when_added() {
    let mut s = Store::new(Vec::new());
    let a = s.add(When::Every { secs: 1800 }, task_what(), "user", None, None).unwrap();
    let at9 = When::At { hour: 9, min: 0, days: EVERY_DAY };
    let b = s.add(at9, task_what(), "builder", None, None).unwrap();
    assert_eq!((a.id, b.id), (1, 2));
    assert!(a.enabled);
    assert_eq!(b.by, "builder");
    assert_eq!(s.count(), 2);
}

#[test]
fn an_interval_below_the_floor_is_refused() {
    let mut s = Store::new(Vec::new());
    let err =
        s.add(When::Every { secs: 1 }, task_what(), "user", None, None).unwrap_err().message();
    assert!(err.contains("shortest interval"), "{err}");
    assert!(parse_every("5s").is_err(), "and at the parsing boundary too");
    assert!(parse_every("60s").is_ok());
}

#[test]
fn removing_a_trigger_hides_it_without_losing_the_record() {
    let mut s = Store::new(Vec::new());
    s.add(When::Every { secs: 3600 }, task_what(), "user", None, None).unwrap();
    s.remove(1).unwrap();
    assert_eq!(s.count(), 0);
    assert!(s.get(1).is_none());
    assert!(s.remove(1).is_err(), "and it cannot be removed twice");
}

#[test]
fn everything_can_be_turned_off_at_once() {
    let mut s = Store::new(Vec::new());
    s.add(When::Every { secs: 3600 }, task_what(), "user", None, None).unwrap();
    s.add(When::Every { secs: 7200 }, task_what(), "user", None, None).unwrap();
    assert_eq!(s.armed_count(), 2);
    assert_eq!(s.disable_all().len(), 2);
    assert_eq!(s.armed_count(), 0);
    assert_eq!(s.count(), 2, "off is not gone");
}

#[test]
fn the_set_survives_a_restart() {
    let mut log: Vec<Trigger> = Vec::new();
    {
        let mut s = Store::new(Vec::new());
        s.add(When::Every { secs: 1800 }, task_what(), "user", None, None).unwrap();
        s.add(When::At { hour: 9, min: 30, days: EVERY_DAY }, task_what(), "user", None, None)
            .unwrap();
        s.set_enabled(1, false).unwrap();
        log.append(&mut s.take_unwritten());
    }
    let mut s = Store::new(log);
    assert_eq!(s.count(), 2);
    assert!(!s.get(1).unwrap().enabled, "off has to survive too, or a restart re-arms it");
    assert_eq!(s.get(2).unwrap().when, When::At { hour: 9, min: 30, days: EVERY_DAY });
    // Ids do not restart, so a replayed log cannot collide with a new rule.
    assert_eq!(s.add(When::Every { secs: 60 }, task_what(), "user", None, None).unwrap().id, 3);
}

#[test]
fn an_empty_task_is_no_rule() {
    let mut s = Store::new(Vec::new());
    let r = s.add(When::Every { secs: 60 }, What::Task { text: "  ".into() }, "user", None, None);
    assert_eq!(r.unwrap_err(), TriggerError::EmptyTask);
    assert_eq!(s.set_enabled(9, true).unwrap_err(), TriggerError::NoSuch(9));
}

// -- when it is due -------------------------------------------------------

#[test]
fn a_new_interval_trigger_waits_its_interval() {
    let now = now_millis();
    let t = rule(When::Every { secs: 1800 }, now);
    assert!(!due(&t, now));
    assert!(due(&t, now + 1800 * 1000));
}

#[test]
fn a_new_daily_trigger_does_not_fire_for_a_time_already_past() {
    let now = now_millis();
    let h = utc(now).hour;
    let past = if h == 0 { 0 } else { h - 1 };
    let t = rule(When::At { hour: past, min: 0, days: EVERY_DAY }, now);
    assert!(!due(&t, now), "created after today's occurrence, so it waits for tomorrow");

    let t = Trigger { created: now - 86_400_000, ..t };
    assert!(due(&t, now), "but one created yesterday is owed today's run");
}

#[test]
fn a_daily_trigger_fires_once_per_day() {
    let now = now_millis();
    let h = utc(now).hour;
    let past = if h == 0 { 0 } else { h - 1 };
    let mut t = rule(When::At { hour: past, min: 0, days: EVERY_DAY }, now - 86_400_000);
    assert!(due(&t, now));
    t.last_fired = Some(now);
    assert!(!due(&t, now), "already run for this occurrence");
    assert!(due(&t, now + 86_400_000), "and due again tomorrow");
}

#[test]
fn days_parse_as_lists_ranges_and_wrapping_ranges() {
    let bit = |i: u32| 1u8 << i;
    assert_eq!(parse_days("mon-fri").unwrap(), bit(1) | bit(2) | bit(3) | bit(4) | bit(5));
    assert_eq!(parse_days("sat,sun").unwrap(), bit(6) | bit(0));
    assert_eq!(parse_days("mon,wed,fri").unwrap(), bit(1) | bit(3) | bit(5));
    assert_eq!(parse_days("daily").unwrap(), EVERY_DAY);
    assert_eq!(parse_days("monday").unwrap(), bit(1), "longer forms match by prefix");
    // `fri-mon` has to mean the weekend, not nothing.
    assert_eq!(parse_days("fri-mon").unwrap(), bit(5) | bit(6) | bit(0) | bit(1));
    assert!(parse_days("funday").is_err());
    assert_eq!(parse_days("  MON-Fri ").unwrap(), parse_days("mon-fri").unwrap());
}

#[test]
fn a_day_filter_keeps_a_rule_off_the_days_it_excludes() {
    let now = now_millis();
    let here = utc(now);
    let past = if here.hour == 0 { 0 } else { here.hour - 1 };
    let today = 1u8 << here.wday;

    let base = rule(When::At { hour: past, min: 0, days: today }, now - 86_400_000);
    assert!(due(&base, now), "today is allowed, and the hour has passed");

    let t = Trigger { when: When::At { hour: past, min: 0, days: EVERY_DAY & !today }, ..base };
    assert!(!due(&t, now), "the excluded day wins over the elapsed hour");
}

#[test]
fn a_day_filter_reads_back_the_way_it_was_written() {
    let days = parse_days("mon-fri").unwrap();
    assert_eq!(When::At { hour: 9, min: 0, days }.describe(), "at 09:00 mon–fri");
    let days = parse_days("sat,sun").unwrap();
    assert_eq!(When::At { hour: 9, min: 0, days }.describe(), "at 09:00 sun,sat");
    // Every day needs no saying.
    assert_eq!(When::At { hour: 9, min: 0, days: EVERY_DAY }.describe(), "at 09:00");
}

#[test]
fn a_time_of_day_is_read_in_local_time() {
    assert_eq!(parse_at("09:00").unwrap(), When::At { hour: 9, min: 0, days: EVERY_DAY });
    assert_eq!(parse_at(" 21:30 ").unwrap(), When::At { hour: 21, min: 30, days: EVERY_DAY });
    assert!(parse_at("9am").is_err());
    assert!(parse_at("25:00").is_err());
    assert!(parse_at("09:71").is_err());

    let now = now_millis();
    let at = utc(last_occurrence(now, utc(now), 9, 0));
    assert_eq!((at.hour, at.min), (9, 0));
}

#[test]
fn what_cannot_be_read_is_said() {
    assert!(matches!(parse_duration("soon"), Err(ScheduleError::BadDuration(_))));
    assert!(matches!(parse_every("5s"), Err(ScheduleError::TooFast)));
    assert!(matches!(parse_days("funday"), Err(ScheduleError::BadDay(_))));
    assert!(matches!(parse_at("noon"), Err(ScheduleError::BadTime(_))));
    assert!(matches!(parse_at("x:00"), Err(ScheduleError::BadHour(_))));
    assert!(matches!(parse_at("9:x"), Err(ScheduleError::BadMinute(_))));
    assert!(matches!(parse_at("24:00"), Err(ScheduleError::NotATime(_))));
    assert!(parse_duration("soon").unwrap_err().message().contains("\"soon\""));
    assert_eq!(parse_duration("2h").unwrap(), 7200);
    assert_eq!(parse_duration("45").unwrap(), 45);
}

#[test]
fn days_and_dates_are_written_out() {
    assert!(day_allowed(1, 0b10));
    assert!(!day_allowed(2, 0b10));
    assert_eq!(describe_days(EVERY_DAY), None);
    assert_eq!(describe_days(0b10).as_deref(), Some("mon"));
    assert_eq!(secs_words(3600), "1h");
    assert_eq!(format_date(2024, 3, 9), "2024-03-09");
}

// -- guards ---------------------------------------------------------------

#[test]
fn nothing_fires_until_unattended_is_turned_on() {
    let mut e = Bench::new();
    e.unattended = false;
    e.add(task_what(), None);
    e.wind_back(1, 120_000);
    assert!(e.fire_due().is_empty());
    assert!(e.fired().is_empty());
    assert_eq!(e.engine.board.open_count(), 0, "and no work appeared");
}

#[test]
fn a_due_trigger_puts_its_work_on_the_board() {
    let mut e = Bench::new();
    e.add(task_what(), None);
    e.wind_back(1, 120_000);
    e.fire_due();

    assert_eq!(e.engine.board.open_count(), 1);
    let t = &e.engine.board.all()[0];
    assert_eq!(t.text, "review yesterday's diff");
    assert_eq!(t.by, owner_tag(1));
    assert_eq!(e.engine.triggers.get(1).unwrap().fire_count, 1);
    assert_eq!(e.fired().len(), 1, "and the journal says what happened");
    assert!(e.fired()[0].contains("review yesterday's diff"), "{:?}", e.fired());
}

#[test]
fn a_trigger_does_not_stack_work_it_has_already_queued() {
    let mut e = Bench::new();
    e.add(task_what(), None);
    e.wind_back(1, 120_000);
    e.fire_due();
    assert_eq!(e.engine.board.open_count(), 1);

    e.wind_back(1, 120_000);
    e.fire_due();
    assert_eq!(e.engine.board.open_count(), 1, "one in flight, not two");

    e.engine.board.claim("worker0", None, None).unwrap();
    e.wind_back(1, 120_000);
    e.fire_due();
    assert_eq!(e.engine.board.all().len(), 1);

    e.engine.board.done("worker0", None, Some("nothing broken")).unwrap();
    e.wind_back(1, 120_000);
    e.fire_due();
    assert_eq!(e.engine.board.all().len(), 2, "the schedule resumes once the work clears");
}

#[test]
fn work_still_outstanding_delays_a_firing_without_consuming_it() {
    let mut e = Bench::new();
    e.add(task_what(), None);
    e.wind_back(1, 120_000);
    e.fire_due();

    e.wind_back(1, 120_000);
    let before = e.engine.triggers.get(1).unwrap().last_fired;
    e.fire_due();
    assert_eq!(e.engine.triggers.get(1).unwrap().last_fired, before, "a skip is not a firing");

    e.engine.board.claim("worker0", None, None).unwrap();
    e.engine.board.done("worker0", None, None).unwrap();
    e.fire_due();
    assert_eq!(e.engine.board.all().len(), 2);
}

#[test]
fn a_disabled_trigger_stays_quiet() {
    let mut e = Bench::new();
    e.add(task_what(), None);
    e.engine.triggers.set_enabled(1, false).unwrap();
    e.wind_back(1, 120_000);
    assert!(e.fire_due().is_empty());
    assert_eq!(e.engine.board.open_count(), 0);
}

#[test]
fn the_hourly_ceiling_holds_the_rest_and_says_so() {
    let mut e = Bench::new();
    for i in 0..MAX_PER_HOUR + 3 {
        e.add(What::Task { text: format!("job {i}") }, None);
        e.wind_back(i as u64 + 1, 120_000);
    }
    let events = e.fire_due();
    assert_eq!(e.engine.board.open_count(), MAX_PER_HOUR, "no more than the ceiling");
    assert!(events.iter().any(|t| t.contains("ceiling")), "a refusal has to be visible");

    let events = e.fire_due();
    assert_eq!(e.engine.board.open_count(), MAX_PER_HOUR);
    assert!(events.iter().any(|t| t.contains("ceiling")), "hitting the wall is not silent");

    assert!(e.fire_due().is_empty(), "one warning an hour, not one per tick");
    assert_eq!(e.engine.board.open_count(), MAX_PER_HOUR);
}

#[test]
fn an_action_that_fails_still_counts_as_a_firing() {
    let mut e = Bench::new();
    e.add(What::Send { to: "nobody".into(), body: "hello".into() }, None);
    e.wind_back(1, 120_000);
    let events = e.fire_due();
    assert!(events.iter().any(|t| t.contains("failed")), "{events:?}");
    assert_eq!(e.engine.triggers.get(1).unwrap().fire_count, 1, "spent, so it will not spin");
}

#[test]
fn a_send_trigger_reaches_a_named_agent() {
    let mut e = Bench::new();
    e.add(What::Send { to: "worker0".into(), body: "status?".into() }, None);
    e.wind_back(1, 120_000);
    e.fire_due();
    assert_eq!(e.sent, vec![("worker0".to_string(), "status?".to_string())]);
}

#[test]
fn a_spawn_trigger_starts_an_agent_and_stamps_where_it_came_from() {
    let mut e = Bench::new();
    let before = e.engine.session.panes.len();
    e.add(spawn_what(), None);
    e.wind_back(1, 120_000);
    e.engine.dirty_shape = false;
    e.engine.detect_soon = false;
    e.fire_due();

    assert_eq!(e.engine.session.panes.len(), before + 1, "a pane should have appeared");
    let spawned: Vec<_> =
        e.engine.session.panes.iter().filter(|p| p.life.spawned_by == Some(1)).collect();
    assert_eq!(spawned.len(), 1, "and it must carry the trigger that started it");
    assert_eq!(spawned[0].name.as_deref(), Some("nightly"));
    assert_eq!(spawned[0].cmd, "cat");
    assert_eq!(live_spawned(&e.engine.session), 1);
    assert!(e.fired()[0].contains("spawned nightly"), "{:?}", e.fired());
    assert!(e.engine.dirty_shape && e.engine.detect_soon, "and it is looked at soon");
}

/// The bound on how many agents can be working with nobody present.
#[test]
fn the_spawn_cap_refuses_loudly_rather_than_quietly() {
    let mut e = Bench::new();
    e.cap = 1;
    e.add(spawn_what(), None);

    e.wind_back(1, 120_000);
    e.fire_due();
    assert_eq!(live_spawned(&e.engine.session), 1);

    // Due again, cap full: a warning, and no second agent.
    e.wind_back(1, 120_000);
    let events = e.fire_due();
    assert_eq!(live_spawned(&e.engine.session), 1, "the cap holds");
    assert!(events.iter().any(|t| t.contains("cap is 1")), "{events:?}");
    // Spent, so it warns once per interval rather than once per tick.
    assert_eq!(e.engine.triggers.get(1).unwrap().fire_count, 2);
}

/// A spawned agent that finishes gives its slot back: the cap counts what is running, not what
/// has ever run.
#[test]
fn a_departed_agent_frees_its_slot() {
    let mut e = Bench::new();
    e.cap = 1;
    e.add(spawn_what(), None);
    e.wind_back(1, 120_000);
    e.fire_due();
    assert_eq!(live_spawned(&e.engine.session), 1);

    let panes = &mut e.engine.session.panes;
    panes.iter_mut().find(|p| p.life.spawned_by.is_some()).unwrap().life.exited = true;
    assert_eq!(live_spawned(&e.engine.session), 0, "a finished agent holds no slot");

    e.wind_back(1, 120_000);
    e.fire_due();
    assert_eq!(live_spawned(&e.engine.session), 1, "the schedule resumes once a slot is free");
}

#[test]
fn an_agent_that_finds_no_room_is_a_firing_that_failed() {
    let mut e = Bench::new();
    let t = Trigger { what: spawn_what(), ..rule(When::Every { secs: 60 }, 0) };
    let err = e.engine.carry_out(&t, true, 3, BARS, "cat", false, e.now).unwrap_err();
    assert!(err.contains("not enough room"), "{err}");
    assert_eq!((e.engine.session.panes.len(), live_spawned(&e.engine.session)), (1, 0));
    let said = e.engine.spawn_for_rule(BARS, "cat", 7, "top", None, true).unwrap();
    let made = e.engine.session.panes.last().unwrap();
    assert_eq!(said, format!("spawned pane{} running top", made.id));
    assert_eq!((made.life.spawned_by, made.name.clone()), (Some(7), None));
}

// -- conditions -----------------------------------------------------------

#[test]
fn the_local_clock_shows_the_offset_that_produced_it() {
    assert_eq!(format_clock(9, 0, 0), "09:00 UTC+00");
    assert_eq!(format_clock(14, 30, 3600), "14:30 UTC+01");
    assert_eq!(format_clock(7, 5, -5 * 3600), "07:05 UTC-05");
    // Zones off the hour boundary keep their minutes.
    assert_eq!(format_clock(12, 0, 5 * 3600 + 1800), "12:00 UTC+05:30");
    // And a negative one takes its sign before its magnitude, or the minutes come out
    // negative too: `-03:-30`.
    assert_eq!(format_clock(12, 0, -(3 * 3600 + 1800)), "12:00 UTC-03:30");
}

#[test]
fn a_closed_board_stops_a_scheduled_task_from_landing() {
    let mut board = Board::new(Vec::new());
    let t = rule(When::Every { secs: 1800 }, now_millis());
    let before = board.open_count();
    let err = perform(&mut board, &t, false, 0, 3, now_millis()).unwrap_err().message();
    assert!(err.contains("agents.board"), "{err}");
    assert_eq!(board.open_count(), before, "nothing may have landed");

    assert!(perform(&mut board, &t, true, 0, 3, now_millis()).is_ok());
    assert_eq!(board.open_count(), before + 1);
}

#[test]
fn a_met_condition_lets_the_rule_act() {
    let mut e = Bench::new();
    e.add(task_what(), Some("true"));
    e.wind_back(1, 120_000);
    e.fire_due();
    e.answers.push((1, ProbeAnswer::Met));
    e.fire_due();
    assert_eq!(e.engine.board.open_count(), 1, "the condition held, so the work went up");
    assert_eq!(e.engine.triggers.get(1).unwrap().fire_count, 1);
}

#[test]
fn an_unmet_condition_holds_the_rule_and_spends_the_interval() {
    let mut e = Bench::new();
    e.add(task_what(), Some("false"));
    e.wind_back(1, 120_000);
    e.fire_due();
    e.answers.push((1, ProbeAnswer::NotMet));
    e.fire_due();

    assert_eq!(e.engine.board.open_count(), 0, "the condition said no");
    assert_eq!(e.engine.triggers.get(1).unwrap().fire_count, 0, "and that is not a firing");
    let evaluated = e.engine.triggers.get(1).unwrap().last_eval;
    assert!(evaluated.is_some(), "but the interval was spent");

    e.fire_due();
    assert!(e.engine.triggers.probes.is_empty(), "no second probe until the interval comes round");
    assert_eq!(e.engine.triggers.get(1).unwrap().last_eval, evaluated);
}

#[test]
fn a_condition_still_running_is_not_launched_again() {
    let mut e = Bench::new();
    e.add(task_what(), Some("sleep 5"));
    e.wind_back(1, 120_000);
    for _ in 0..5 {
        e.fire_due();
    }
    assert_eq!(e.engine.triggers.probes.len(), 1, "five passes, one probe");
    assert_eq!(e.engine.board.open_count(), 0, "and nothing acted while it was thinking");
}

#[test]
fn a_condition_that_never_answers_is_abandoned_with_a_warning() {
    let mut e = Bench::new();
    e.add(task_what(), Some("sleep 60"));
    e.wind_back(1, 120_000);
    e.fire_due();
    assert_eq!(e.engine.triggers.probes.len(), 1);

    e.engine.triggers.probes.insert(1, e.now - (PROBE_TIMEOUT + 1));
    let events = e.fire_due();
    assert!(events.iter().any(|t| t.contains("abandoned")), "{events:?}");
    assert!(e.engine.triggers.probes.is_empty(), "and the slot is free again");
    assert_eq!(e.engine.board.open_count(), 0);
}

#[test]
fn descriptions_read_back_the_way_they_were_written() {
    assert_eq!(When::Every { secs: 1800 }.describe(), "every 30m");
    assert_eq!(When::Every { secs: 7200 }.describe(), "every 2h");
    assert_eq!(When::Every { secs: 86_400 }.describe(), "every 1d");
    assert_eq!(When::Every { secs: 90 }.describe(), "every 90s");
    assert_eq!(When::At { hour: 9, min: 0, days: EVERY_DAY }.describe(), "at 09:00");
    assert_eq!(task_what().describe(), "board: review yesterday's diff");
}

const DAY: u64 = 86_400_000;
/// A Monday, and the midnight that begins it.
const MONDAY: u64 = 4 * DAY;

#[test]
fn a_daily_rule_that_ran_a_moment_ago_is_not_due_again() {
    let nine = MONDAY + 9 * 3_600_000;
    assert_eq!((utc(nine).hour, utc(nine).wday), (9, 1));
    let mut t = rule(When::At { hour: 9, min: 0, days: EVERY_DAY }, MONDAY - DAY);
    assert!(due(&t, nine + 100));
    t.last_fired = Some(nine + 100);
    assert!(!due(&t, nine + 250), "the same second, and the same occurrence");
    assert!(!due(&t, nine + 3_600_000));
    assert!(!due(&t, nine + DAY - 1));
    assert!(due(&t, nine + DAY), "tomorrow is another");
    // The occurrence is a whole second, whatever the clock shows beyond it.
    assert_eq!(last_occurrence(nine + 250, utc(nine + 250), 9, 0), nine);
}

#[test]
fn a_missed_run_does_not_come_on_a_day_that_is_left_out() {
    let weekdays = parse_days("mon-fri").unwrap();
    let friday = MONDAY + 4 * DAY;
    let t = rule(When::At { hour: 9, min: 0, days: weekdays }, MONDAY);
    let late = friday + 23 * 3_600_000;
    assert!(due(&t, late), "owed all Friday");
    let saturday = friday + DAY + 8 * 3_600_000;
    assert_eq!(utc(saturday).wday, 6);
    assert!(!due(&t, saturday), "Friday's run is not made up for on Saturday morning");
    assert!(!due(&t, saturday + 2 * 3_600_000));
    assert!(!due(&t, friday + 3 * DAY + 8 * 3_600_000), "nor Sunday's on Monday");
    assert!(due(&t, friday + 3 * DAY + 9 * 3_600_000));
}

#[test]
fn lists_of_days_are_joined_by_a_comma() {
    for a in ["mon", "sat-mon", "wed-thu"] {
        for b in ["tue", "fri-sun"] {
            let both = parse_days(&format!("{a},{b}")).unwrap();
            assert_eq!(both, parse_days(a).unwrap() | parse_days(b).unwrap());
        }
    }
}

#[test]
fn only_what_was_done_counts_toward_the_hour() {
    let mut j = Journal::new();
    j.note(Happening::Fired("placed it".into()), 1_000);
    j.note(Happening::Notified("2 need you".into()), 1_500);
    j.note(Happening::Fired("placed another".into()), 2_000_000);
    assert_eq!(j.fired_within(3_600_000, 2_000_000), 2);
    assert_eq!(j.fired_within(3_600_000, 3_700_000), 1, "the first is over an hour ago");

    // One that failed spends its interval, and leaves the hour as it was.
    let mut e = Bench::new();
    e.add(What::Send { to: "nobody".into(), body: "hello".into() }, None);
    e.wind_back(1, 120_000);
    e.fire_due();
    assert!(e.fired().is_empty());
}
