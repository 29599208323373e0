//! The wire format, framed links, the lockstep exchange and the lobby.

use nanorts::cmd::Cmd;
use nanorts::kind::Kind;
use nanorts::link::{Link, MAX_OUTBUF};
use nanorts::lobby::{
    check_start, check_welcome, is_ping, mask_of, ping, pong, read_pong, unmask, welcome, Door, Host, Joiner, Refusal,
};
use nanorts::lockstep::{Lockstep, CHECK_EVERY, INPUT_DELAY, MAX_AHEAD};
use nanorts::num::Num;
use nanorts::table::Table;
use nanorts::wire::{
    clamp_step, dec_cmd, dec_ids, dec_msg, enc_cmd, enc_ids, enc_msg, pack_teams, unpack_teams, Buf, Msg, Rdr,
    MAX_FRAME, STEP_MAX_BYTES, STEP_MAX_CMDS, STEP_MAX_IDS, TEAMS_FFA,
};

const MAXF: usize = 4;

fn num(x: f32) -> Num {
    Num { bits: x.to_bits() }
}

/// Moves everything queued on one link to the other end.
fn deliver(from: &mut Link, to: &mut Link) {
    let bytes = from.outbuf.clone();
    to.receive(&bytes);
    from.wrote(bytes.len());
}

/// The message as it arrives, framed.
fn frame(m: &Msg) -> Vec<u8> {
    let mut l = Link::new(0);
    l.send(m);
    l.outbuf
}

#[test]
fn lobby_keeps_factions_across_leavers() {
    let mut host = Host::new(47431, 7, 4);
    assert_eq!(host.players(), 1);
    let f1 = host.free_slot().unwrap();
    host.seat(f1);
    let f2 = host.free_slot().unwrap();
    host.seat(f2);
    assert_eq!((f1, f2), (1, 2));
    assert_eq!(host.players(), 3);

    host.peers[0].hang_up();
    host.sweep();
    assert_eq!(host.players(), 2);
    assert_eq!(host.peers[0].faction, 2);
    let f3 = host.free_slot().unwrap();
    host.seat(f3);
    assert_eq!(f3, 1);
    assert_eq!(host.players(), 3);

    let mut j3 = Joiner::new(f3);
    let mut ls = host.start();
    assert_eq!(ls.is_ai, [false, false, false, true]);
    let k = ls.peers.iter().position(|p| p.faction == 1).unwrap();
    deliver(&mut ls.peers[k], j3.peer.as_mut().unwrap());
    let jls = j3.poll_start().expect("joiner never saw Start");
    assert_eq!(jls.is_ai, ls.is_ai);
    assert_eq!(jls.my_faction, 1);
    assert_eq!(jls.seed, 7);
    assert_eq!(jls.factions, 4);
    assert!(j3.alive());
}

#[test]
fn full_lobby_hangs_up_latecomers() {
    let mut host = Host::new(47432, 7, 2);
    let f = host.free_slot().unwrap();
    host.seat(f);
    assert_eq!(host.free_slot(), None, "a latecomer finds no slot");
    assert_eq!(host.players(), 2);
    assert_eq!(host.poll(), Door::Full);
    assert_eq!(host.let_in(), Door::Full);
    assert_eq!(host.players(), 2);
}

#[test]
fn the_lobby_fills_its_lowest_gap() {
    let mut host = Host::new(47431, 7, 4);
    for f in 1..4 {
        assert_eq!(host.poll(), Door::Open(f));
        assert_eq!(host.let_in(), Door::Open(f));
    }
    assert_eq!(host.poll(), Door::Full);
    host.peers[1].hang_up();
    assert_eq!(host.poll(), Door::Open(2));
    assert_eq!(host.peers.iter().map(|p| p.faction).collect::<Vec<_>>(), vec![1, 3]);
    assert_eq!(host.let_in(), Door::Open(2));
    assert_eq!(host.peers.iter().map(|p| p.faction).collect::<Vec<_>>(), vec![1, 3, 2]);
    assert_eq!(host.players(), 4);
    assert!(matches!(welcome(2), Msg::Welcome { faction: 2 }));
}

#[test]
fn cut_messages_are_refused_and_bytes_after_do_not_matter() {
    let cmds = vec![
        Cmd::Order { ids: vec![1, 2], x: num(1.5), y: num(-2.0), attack_move: true, queue: false },
        Cmd::Stop { ids: vec![9] },
        Cmd::Train { building: 4, unit: Kind::Tank },
        Cmd::Build { worker: 7, kind: Kind::Depot, x: num(0.0), y: num(3.0), chain: true },
        Cmd::Rally { building: 4, x: num(5.0), y: num(6.0) },
        Cmd::Cancel { building: 4 },
        Cmd::Surrender,
    ];
    let all = [
        Msg::Step { faction: 2, step: 77, cmds },
        Msg::Check { faction: 1, step: 8, hash: 0x0102_0304_0506_0708 },
        Msg::Welcome { faction: 3 },
        Msg::Start { seed: 99, factions: 4, ai_mask: 5, teams: TEAMS_FFA },
    ];
    for m in &all {
        let bytes = enc_msg(m);
        for n in 0..bytes.len() {
            assert!(dec_msg(&bytes[..n]).is_none(), "{m:?} cut at {n}");
        }
        let mut more = bytes.clone();
        more.extend_from_slice(&[1, 2, 3, 255]);
        assert_eq!(format!("{:?}", dec_msg(&more)), format!("{:?}", dec_msg(&bytes)));
        assert_eq!(format!("{:?}", dec_msg(&bytes)), format!("{:?}", Some(m)));
    }
}

#[test]
fn handshake_rejects_bogus_values() {
    assert!(check_welcome(&Msg::Welcome { faction: MAXF as u8 }).is_err());
    assert_eq!(check_welcome(&Msg::Welcome { faction: 1 }), Ok(1));

    let mut j = Joiner::new(1);
    let bogus = Msg::Start { seed: 1, factions: (MAXF + 1) as u8, ai_mask: 0, teams: TEAMS_FFA };
    assert!(check_start(&bogus, 1).is_err());
    j.peer.as_mut().unwrap().receive(&frame(&bogus));
    assert!(j.poll_start().is_none(), "bogus start accepted");
    assert!(!j.alive(), "bogus start neither accepted nor refused");
}

#[test]
fn sender_clamps_before_storing() {
    let mut cmds = vec![Cmd::Stop { ids: (0..100_000).collect() }];
    for i in 0..400u32 {
        cmds.push(Cmd::Cancel { building: i });
    }
    clamp_step(&mut cmds);
    match &cmds[0] {
        Cmd::Stop { ids } => assert_eq!(ids.len(), STEP_MAX_IDS),
        _ => panic!("head command dropped"),
    }
    assert_eq!(cmds.len(), STEP_MAX_CMDS);
    let frame = enc_msg(&Msg::Step { faction: 0, step: 0, cmds });
    assert!(frame.len() <= STEP_MAX_BYTES && frame.len() < MAX_FRAME);
}

#[test]
fn team_bytes_roundtrip() {
    for teams in [[0u8, 1, 2, 3], [0, 0, 1, 1], [0, 1, 0, 1], [2, 2, 2, 2]] {
        assert_eq!(unpack_teams(pack_teams(&teams)), teams);
    }
    assert_eq!(unpack_teams(TEAMS_FFA), [0, 1, 2, 3], "the FFA byte is everyone-for-themselves");
}

#[test]
fn surrender_roundtrips_on_the_wire() {
    let mut b = Buf::default();
    enc_cmd(&mut b, &Cmd::Surrender);
    let mut r = Rdr::new(&b.0);
    assert!(matches!(dec_cmd(&mut r), Some(Cmd::Surrender)));
    assert_eq!(r.p, b.0.len(), "no stray payload bytes");
}

#[test]
fn dec_ids_rejects_short_input() {
    let mut b = Buf::default();
    b.u16(u16::MAX);
    b.u32(7);
    assert!(dec_ids(&mut Rdr::new(&b.0)).is_none());
}

#[test]
fn checks_are_keyed_per_faction() {
    let mut ls = Lockstep::new(Vec::new(), false, 1, 3, [false; MAXF], unpack_teams(TEAMS_FFA), 0);
    ls.advanced(0xABCD);
    ls.ingest(0, Msg::Check { faction: 2, step: 0, hash: 0xBEEF });
    ls.ingest(0, Msg::Check { faction: 1, step: 0, hash: 0xABCD });
    ls.advanced(1);
    assert_eq!(ls.desync_step, Some(0));
    assert_eq!(ls.last_synced, 0);
    ls.ingest(0, Msg::Check { faction: 1, step: CHECK_EVERY, hash: 5 });
    assert!(!ls.remote_checks.contains(CHECK_EVERY as u64 * 256 + 1));
}

#[test]
fn last_synced_needs_every_faction() {
    let mut ls = Lockstep::new(Vec::new(), false, 1, 3, [false; MAXF], unpack_teams(TEAMS_FFA), 0);
    while ls.sim_step <= CHECK_EVERY {
        ls.advanced(0xABCD);
    }
    ls.ingest(0, Msg::Check { faction: 1, step: 0, hash: 0xABCD });
    ls.ingest(0, Msg::Check { faction: 1, step: CHECK_EVERY, hash: 0xABCD });
    ls.advanced(0xABCD);
    assert_eq!(ls.last_synced, 0);
    ls.ingest(0, Msg::Check { faction: 2, step: 0, hash: 0xABCD });
    ls.ingest(0, Msg::Check { faction: 2, step: CHECK_EVERY, hash: 0xABCD });
    ls.advanced(0xABCD);
    assert_eq!(ls.last_synced, CHECK_EVERY);
    assert_eq!(ls.desync_step, None);
    assert!(ls.local_checks.keys().is_empty() && ls.remote_checks.keys().is_empty());
}

#[test]
fn host_drops_spoofed_and_far_future_steps() {
    let mut ls = Lockstep::new(vec![Link::new(1)], true, 1, 2, [false; MAXF], unpack_teams(TEAMS_FFA), 0);
    let mut client = Link::new(0);
    client.send(&Msg::Step { faction: 0, step: 5, cmds: vec![Cmd::Cancel { building: 9 }] });
    client.send(&Msg::Step { faction: 1, step: 5, cmds: vec![Cmd::Cancel { building: 9 }] });
    client.send(&Msg::Step { faction: 1, step: 100_000, cmds: Vec::new() });
    deliver(&mut client, &mut ls.peers[0]);
    for m in ls.peers[0].take_messages() {
        ls.ingest(0, m);
    }
    assert!(ls.cmds[1].contains(5));
    assert!(!ls.cmds[0].contains(5), "spoofed faction stored");
    assert!(!ls.cmds[1].contains(100_000), "far-future step stored");
}

#[test]
fn numbers_are_little_endian() {
    let mut b = Buf::default();
    b.u8(1);
    b.u16(0x0302);
    b.u32(0x0706_0504);
    b.u64(0x0F0E_0D0C_0B0A_0908);
    b.num(num(1.0));
    assert_eq!(b.0, vec![1, 2, 3, 4, 5, 6, 7, 8, 9, 10, 11, 12, 13, 14, 15, 0, 0, 0x80, 0x3F]);
    let mut r = Rdr::new(&b.0);
    assert_eq!(r.u8(), Some(1));
    assert_eq!(r.u16(), Some(0x0302));
    assert_eq!(r.u32(), Some(0x0706_0504));
    assert_eq!(r.u64(), Some(0x0F0E_0D0C_0B0A_0908));
    assert_eq!(r.num(), Some(num(1.0)));
    assert_eq!(r.u8(), None);
    assert_eq!(Rdr::new(&vec![1]).u16(), None);
}

#[test]
fn every_command_survives_the_wire() {
    let cmds = vec![
        Cmd::Order { ids: vec![1, 2, 70_000], x: num(12.5), y: num(-3.0), attack_move: true, queue: false },
        Cmd::Order { ids: vec![], x: num(0.0), y: num(0.0), attack_move: false, queue: true },
        Cmd::Stop { ids: vec![5] },
        Cmd::Train { building: 9, unit: Kind::Sapper },
        Cmd::Build { worker: 3, kind: Kind::Depot, x: num(1.0), y: num(2.0), chain: true },
        Cmd::Rally { building: 4, x: num(8.0), y: num(9.0) },
        Cmd::Cancel { building: u32::MAX },
        Cmd::Surrender,
    ];
    for c in &cmds {
        let mut b = Buf::default();
        enc_cmd(&mut b, c);
        let mut r = Rdr::new(&b.0);
        let back = dec_cmd(&mut r).expect("decodes");
        assert_eq!(format!("{:?}", back), format!("{:?}", c));
        assert_eq!(r.p, b.0.len());
        // Cut short, it does not decode.
        for n in 0..b.0.len() {
            assert!(dec_cmd(&mut Rdr::new(&b.0[..n].to_vec())).is_none());
        }
    }
    let m = Msg::Step { faction: 2, step: 77, cmds };
    let bytes = enc_msg(&m);
    assert_eq!(format!("{:?}", dec_msg(&bytes).unwrap()), format!("{:?}", m));
    assert!(dec_msg(&vec![]).is_none());
    assert!(dec_msg(&vec![250]).is_none());
}

#[test]
fn id_lists_survive_the_wire() {
    let mut b = Buf::default();
    enc_ids(&mut b, &vec![7, 8, 9]);
    assert_eq!(b.0, vec![3, 0, 7, 0, 0, 0, 8, 0, 0, 0, 9, 0, 0, 0]);
    assert_eq!(dec_ids(&mut Rdr::new(&b.0)), Some(vec![7, 8, 9]));
}

#[test]
fn small_steps_are_not_clamped() {
    let mut cmds = vec![Cmd::Stop { ids: vec![1, 2, 3] }, Cmd::Cancel { building: 4 }];
    clamp_step(&mut cmds);
    assert_eq!(format!("{:?}", cmds), "[Stop { ids: [1, 2, 3] }, Cancel { building: 4 }]");
}

#[test]
fn frames_arrive_in_any_chunks() {
    let mut out = Link::new(0);
    out.send(&Msg::Welcome { faction: 3 });
    out.send(&Msg::Check { faction: 1, step: 20, hash: 99 });
    let bytes = out.outbuf.clone();
    let mut l = Link::new(0);
    let mut got = Vec::new();
    for b in &bytes {
        l.receive(&[*b]);
        got.extend(l.take_messages());
    }
    assert_eq!(got.len(), 2);
    assert!(matches!(got[0], Msg::Welcome { faction: 3 }));
    assert!(matches!(got[1], Msg::Check { faction: 1, step: 20, hash: 99 }));
    assert!(l.inbuf.is_empty() && !l.closed);
}

#[test]
fn oversized_frames_close_the_link() {
    let mut l = Link::new(0);
    l.receive(&[0xFF, 0xFF, 0xFF, 0x7F, 1, 2, 3]);
    assert!(l.take_messages().is_empty());
    assert!(l.closed);
    assert!(l.inbuf.is_empty());
}

#[test]
fn a_stalled_link_is_closed_and_takes_nothing() {
    let mut l = Link::new(0);
    let big = Msg::Step { faction: 0, step: 0, cmds: vec![Cmd::Stop { ids: (0..10_000).collect() }] };
    while !l.closed {
        l.send(&big);
        assert!(l.outbuf.len() <= MAX_OUTBUF);
    }
    let n = l.outbuf.len();
    l.send(&Msg::Welcome { faction: 1 });
    assert_eq!(l.outbuf.len(), n);
}

#[test]
fn peers_exchange_steps_and_agree() {
    let ffa = unpack_teams(TEAMS_FFA);
    let mut a = Lockstep::new(vec![Link::new(1)], true, 9, 2, [false; MAXF], ffa, 0);
    let mut b = Lockstep::new(vec![Link::new(0)], false, 9, 2, [false; MAXF], ffa, 1);
    a.queue(Cmd::Cancel { building: 11 });
    b.queue(Cmd::Cancel { building: 22 });
    let mut seen = Vec::new();
    for _ in 0..60 {
        while a.push_step() {}
        while b.push_step() {}
        let (pa, pb) = (&mut a.peers[0], &mut b.peers[0]);
        deliver(pa, pb);
        deliver(pb, pa);
        for m in b.peers[0].take_messages() {
            b.ingest(0, m);
        }
        for m in a.peers[0].take_messages() {
            a.ingest(0, m);
        }
        if a.ready() && b.ready() {
            let (x, y) = (format!("{:?}", a.step_cmds()), format!("{:?}", b.step_cmds()));
            assert_eq!(x, y, "both peers run the same commands");
            seen.push(x);
            a.advanced(5);
            b.advanced(5);
        }
    }
    assert!(a.alive() && b.alive());
    assert!(a.sim_step > CHECK_EVERY + INPUT_DELAY);
    assert!(seen.iter().any(|s| s.contains("building: 11") && s.contains("building: 22")));
    assert_eq!((a.desync_step, b.desync_step), (None, None));
    assert!(a.last_synced >= CHECK_EVERY && b.last_synced >= CHECK_EVERY);
}

#[test]
fn the_window_and_the_first_word_hold() {
    let ffa = unpack_teams(TEAMS_FFA);
    let mut ls = Lockstep::new(vec![Link::new(0)], false, 1, 3, [false; MAXF], ffa, 1);
    ls.ingest(0, Msg::Step { faction: 2, step: 4, cmds: vec![Cmd::Cancel { building: 1 }] });
    ls.ingest(0, Msg::Step { faction: 2, step: 4, cmds: vec![Cmd::Cancel { building: 2 }] });
    let held = format!("{:?}", ls.cmds[2].get(4).unwrap());
    assert_eq!(held, "[Cancel { building: 1 }]");
    let far = ls.sent_step + MAX_AHEAD + 1;
    ls.ingest(0, Msg::Step { faction: 2, step: far, cmds: Vec::new() });
    assert!(!ls.cmds[2].contains(far as u64));
}

#[test]
fn a_lost_link_ends_the_match() {
    let ffa = unpack_teams(TEAMS_FFA);
    let mut ls = Lockstep::new(vec![Link::new(0)], false, 1, 2, [false; MAXF], ffa, 1);
    assert!(ls.alive());
    ls.peers[0].hang_up();
    ls.note_closed();
    assert!(!ls.alive());
    assert!(ls.disconnected);
}

#[test]
fn handshake_values_are_named() {
    assert_eq!(check_welcome(&Msg::Check { faction: 0, step: 0, hash: 0 }), Err(Refusal::BadWelcome));
    assert_eq!(check_welcome(&Msg::Welcome { faction: 0 }), Err(Refusal::BadWelcome));
    let start = Msg::Start { seed: 5, factions: 3, ai_mask: 0b100, teams: TEAMS_FFA };
    let cfg = match check_start(&start, 1) {
        Ok(c) => c,
        Err(_) => panic!("a plain start is accepted"),
    };
    assert_eq!((cfg.seed, cfg.factions), (5, 3));
    assert_eq!(cfg.is_ai, [false, false, true, false]);
    assert_eq!(cfg.alliance, [0, 1, 2, 3]);
    assert_eq!(check_start(&start, 3).err(), Some(Refusal::FactionOutOfRange));
    assert_eq!(check_start(&Msg::Welcome { faction: 1 }, 1).err(), Some(Refusal::BadStart));
}

#[test]
fn masks_name_the_computers() {
    assert_eq!(unmask(0b0101), [true, false, true, false]);
    assert_eq!(mask_of(&[false, true, false, true]), 0b1010);
}

#[test]
fn discovery_answers_with_a_port() {
    assert!(is_ping(&ping()));
    assert!(!is_ping(&pong(7777)));
    assert_eq!(read_pong(&pong(7777)), Some(7777));
    assert_eq!(read_pong(&ping()), None);
    assert_eq!(read_pong(&[]), None);
}

#[test]
fn tables_hold_the_latest_value() {
    let mut t: Table<u32> = Table::new();
    t.insert(5, 50);
    t.insert(7, 70);
    t.insert(5, 51);
    let mut k = t.keys();
    k.sort();
    assert_eq!(k, vec![5, 7]);
    assert_eq!(t.get(5), Some(&51));
    assert_eq!(t.get(6), None);
    t.retain_from(6);
    assert!(!t.contains(5) && t.contains(7));
    t.remove(7);
    assert!(t.keys().is_empty());
}
