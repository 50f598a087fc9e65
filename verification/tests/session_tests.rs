use esp_loader::exchange::{
    command_timeout, match_reply, Exchange, Step, Timeout, MAX_ATTEMPTS,
};
use esp_loader::framing::encode;
use esp_loader::handshake::{
    release_sequence, reset_sequence, sync_request, Action, Handshake, LineStep, MAX_CYCLES,
    SYNC_REPLIES,
};
use esp_loader::loader::{load_requests, mem_begin, mem_finish, Image, Segment};
use esp_loader::packet::{Command, ProtocolError, ResponseHeader};
use esp_loader::transfer::{Progress, Transfer};

fn reply(opcode: u8, status: u8, error: u8) -> Vec<u8> {
    encode(&[0x01, opcode, 0x02, 0x00, 0x44, 0x33, 0x22, 0x11, status, error])
}

fn header(opcode: u8, status: u8, error: u8) -> ResponseHeader {
    ResponseHeader { direction: 1, opcode, length: 2, value: 0x11223344, status, error }
}

#[test]
fn timeouts() {
    assert_eq!(Timeout::Default.millis(), 3000);
    assert_eq!(Timeout::Sync.millis(), 100);
    assert_eq!(command_timeout(Command::Sync), Timeout::Sync);
    assert_eq!(command_timeout(Command::MemBegin), Timeout::Default);
    assert_eq!(command_timeout(Command::MemData), Timeout::Default);
    assert_eq!(command_timeout(Command::MemEnd), Timeout::Default);
}

#[test]
fn match_reply_reads_through_the_frame() {
    assert_eq!(match_reply(&reply(0x05, 0, 0), 0x05), Some(header(0x05, 0, 0)));
    assert_eq!(match_reply(&reply(0x05, 0, 0), 0x06), None);
    assert_eq!(match_reply(&encode(&[1, 5, 0, 0, 0, 0, 0]), 0x05), None);
    assert_eq!(match_reply(&[], 0x05), None);
    assert_eq!(match_reply(&encode(&[0xC0, 0x05, 0, 0, 0, 0, 0, 0]), 0x05).map(|h| h.direction), Some(0xC0));
}

#[test]
fn exchange_finishes_on_matching_reply() {
    let exchange = Exchange::begin(Command::MemBegin);
    assert_eq!(exchange, Exchange { opcode: 0x05, attempts_left: 10 });
    assert_eq!(exchange.on_reply(&reply(0x05, 0, 0)), Step::Finished(header(0x05, 0, 0)));
}

#[test]
fn exchange_passes_over_stale_reply() {
    let exchange = Exchange::begin(Command::MemBegin);
    assert_eq!(
        exchange.on_reply(&reply(0x08, 0, 0)),
        Step::Again(Exchange { opcode: 0x05, attempts_left: 9 })
    );
    let replies = vec![reply(0x08, 0, 0), vec![0xC0, 0x01, 0xC0], reply(0x05, 0, 0)];
    assert_eq!(exchange.settle(&replies), Step::Finished(header(0x05, 0, 0)));
}

#[test]
fn exchange_times_out_on_silence() {
    let exchange = Exchange::begin(Command::MemData);
    let silence: Vec<Vec<u8>> = vec![Vec::new(); 10];
    assert_eq!(exchange.settle(&silence), Step::Failed(ProtocolError::Timeout));
    assert_eq!(
        exchange.settle(&silence[..9]),
        Step::Again(Exchange { opcode: 0x07, attempts_left: 1 })
    );
    assert_eq!(MAX_ATTEMPTS, 10);
}

#[test]
fn exchange_times_out_before_a_late_answer() {
    let exchange = Exchange::begin(Command::MemData);
    let mut replies: Vec<Vec<u8>> = vec![reply(0x08, 0, 0); 10];
    replies.push(reply(0x07, 0, 0));
    assert_eq!(exchange.settle(&replies), Step::Failed(ProtocolError::Timeout));
    assert_eq!(exchange.settle(&replies[1..]), Step::Finished(header(0x07, 0, 0)));
}

#[test]
fn exchange_counts_broken_frames() {
    let exchange = Exchange { opcode: 0x05, attempts_left: 2 };
    assert_eq!(
        exchange.on_reply(&[0xC0, 0xDB, 0x00, 0xC0]),
        Step::Again(Exchange { opcode: 0x05, attempts_left: 1 })
    );
    let last = Exchange { opcode: 0x05, attempts_left: 1 };
    assert_eq!(last.on_reply(&[0xC0, 0x01]), Step::Failed(ProtocolError::Timeout));
}

#[test]
fn reset_sequence_steps() {
    assert_eq!(
        reset_sequence(),
        vec![
            LineStep::Dtr(false),
            LineStep::Rts(true),
            LineStep::Wait(100),
            LineStep::Dtr(true),
            LineStep::Rts(false),
            LineStep::Wait(50),
            LineStep::Dtr(true)
        ]
    );
    assert_eq!(release_sequence(), vec![LineStep::Dtr(false), LineStep::Rts(false)]);
}

#[test]
fn sync_request_payload() {
    let request = sync_request();
    assert_eq!(request.command, Command::Sync);
    assert_eq!(request.check, 0);
    assert_eq!(request.payload.len(), 36);
    assert_eq!(&request.payload[..4], &[0x07, 0x07, 0x12, 0x20]);
    assert!(request.payload[4..].iter().all(|b| *b == 0x55));
    let frame = request.frame().unwrap();
    assert_eq!(frame.len(), 1 + 8 + 36 + 1);
    assert_eq!(&frame[..9], &[0xC0, 0x00, 0x08, 0x24, 0x00, 0x00, 0x00, 0x00, 0x00]);
}

#[test]
fn handshake_connects_after_draining() {
    assert_eq!(Handshake::new(), Handshake::Idle);
    let (state, action) = Handshake::start();
    assert_eq!(action, Action::Reset);
    assert_eq!(state, Handshake::Resetting { cycles_left: 10 });
    let (state, action) = state.reset_done();
    assert_eq!(action, Action::SendSync);
    let (mut state, action) = state.on_reply(&reply(0x08, 0, 0));
    assert_eq!(action, Action::Receive(Timeout::Sync));
    assert_eq!(state, Handshake::Draining { cycles_left: 10, replies_left: 7 });
    for left in (1..7u8).rev() {
        let (next, action) = state.on_reply(&reply(0x08, 0, 0));
        assert_eq!(next, Handshake::Draining { cycles_left: 10, replies_left: left });
        assert_eq!(action, Action::Receive(Timeout::Sync));
        assert!(!next.is_connected());
        state = next;
    }
    let (state, action) = state.on_reply(&reply(0x08, 0, 0));
    assert_eq!(state, Handshake::Connected);
    assert_eq!(action, Action::Proceed);
    assert!(state.is_connected());
    assert_eq!(state.on_reply(&reply(0x08, 0, 0)), (Handshake::Connected, Action::Proceed));
    assert_eq!(SYNC_REPLIES, 7);
}

#[test]
fn handshake_drain_passes_over_short_frames() {
    let state = Handshake::Draining { cycles_left: 3, replies_left: 2 };
    assert_eq!(
        state.on_reply(&encode(&[1, 8, 0])),
        (state, Action::Receive(Timeout::Sync))
    );
    assert_eq!(
        state.on_reply(&[0xC0, 0x01]),
        (Handshake::Resetting { cycles_left: 2 }, Action::Reset)
    );
}

#[test]
fn handshake_fails_after_every_cycle() {
    let (mut state, mut action) = Handshake::start();
    let mut cycles = 0;
    loop {
        assert_eq!(action, Action::Reset);
        cycles += 1;
        let (next, act) = state.reset_done();
        assert_eq!(act, Action::SendSync);
        state = next;
        for _ in 0..9 {
            let (next, act) = state.on_reply(&[]);
            assert_eq!(act, Action::Receive(Timeout::Sync));
            state = next;
        }
        let (next, act) = state.on_reply(&[]);
        state = next;
        action = act;
        if action != Action::Reset {
            break;
        }
    }
    assert_eq!(cycles, 10);
    assert_eq!(MAX_CYCLES, 10);
    assert_eq!(action, Action::HandshakeFailed);
    assert_eq!(state, Handshake::Idle);
}

#[test]
fn handshake_ignores_events_out_of_turn() {
    assert_eq!(Handshake::Idle.reset_done(), (Handshake::Idle, Action::Nothing));
    assert_eq!(Handshake::Idle.on_reply(&reply(8, 0, 0)), (Handshake::Idle, Action::Nothing));
    assert_eq!(Handshake::Connected.reset_done(), (Handshake::Connected, Action::Nothing));
}

#[test]
fn transfer_runs_every_request() {
    let image = Image {
        entry: 0x40100010,
        segments: vec![Segment { address: 0x40100000, data: vec![1, 2, 3, 4] }],
    };
    let requests = load_requests(&image).unwrap();
    let mut progress = Transfer::start(&requests);
    let mut sent = Vec::new();
    loop {
        match progress {
            Progress::Send(transfer) => {
                let opcode = requests[transfer.index].command.opcode();
                sent.push(opcode);
                progress = transfer.on_reply(&requests, &reply(opcode, 0, 0));
            }
            Progress::Receive(_) => panic!("no reply was passed over"),
            Progress::Done => break,
            Progress::Aborted(e) => panic!("aborted: {:?}", e),
        }
    }
    assert_eq!(sent, vec![0x05, 0x07, 0x06]);
}

#[test]
fn transfer_aborts_on_device_error() {
    let requests = vec![mem_begin(4, 1, 6144, 0), mem_finish(0)];
    let first = match Transfer::start(&requests) {
        Progress::Send(t) => t,
        other => panic!("unexpected {:?}", other),
    };
    assert_eq!(first.index, 0);
    assert_eq!(
        first.on_reply(&requests, &reply(0x05, 1, 6)),
        Progress::Aborted(ProtocolError::DeviceError(1, 6))
    );
}

#[test]
fn transfer_aborts_on_timeout() {
    let requests = vec![mem_finish(0)];
    let mut progress = Transfer::start(&requests);
    let mut reads = 0;
    loop {
        match progress {
            Progress::Send(t) | Progress::Receive(t) => {
                reads += 1;
                progress = t.on_reply(&requests, &[]);
            }
            other => {
                assert_eq!(other, Progress::Aborted(ProtocolError::Timeout));
                break;
            }
        }
    }
    assert_eq!(reads, 10);
}

#[test]
fn transfer_of_nothing_is_done() {
    assert_eq!(Transfer::start(&[]), Progress::Done);
}
