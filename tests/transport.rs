use serial_link::codec::{FRAME_CAPACITY, SENTINEL};
use serial_link::device::{Assembler, DeviceReply};
use serial_link::transport::{
    judge_reply, HostStep, ReadStatus, ReplyReader, Request, TransportError, MAX_RETRIES,
};
use serial_link::{serialize_crc_cobs, Command, DeserError, Message, Response};

fn frame_of_response(r: &Response) -> Vec<u8> {
    let mut buf = [0u8; FRAME_CAPACITY];
    let n = serialize_crc_cobs(r, &mut buf).unwrap();
    buf[..n].to_vec()
}

fn read_reply(reader: &mut ReplyReader, bytes: &[u8]) -> Option<Result<Response, TransportError>> {
    for &b in bytes {
        if let ReadStatus::Complete(o) = reader.push(b) {
            return Some(o);
        }
    }
    None
}

fn crc_damaged_set_ok() -> Vec<u8> {
    let mut f = frame_of_response(&Response::SetOk);
    f[3] ^= 0x10;
    f
}

#[test]
fn reply_read_to_sentinel() {
    let mut reader = ReplyReader::new();
    let f = frame_of_response(&Response::SetOk);
    for &b in &f[..f.len() - 1] {
        assert_eq!(reader.push(b), ReadStatus::More);
    }
    assert_eq!(reader.push(SENTINEL), ReadStatus::Complete(Ok(Response::SetOk)));
}

#[test]
fn data_reply_is_success() {
    let mut reader = ReplyReader::new();
    let f = frame_of_response(&Response::Data(1, 2, 3, 4));
    assert_eq!(read_reply(&mut reader, &f), Some(Ok(Response::Data(1, 2, 3, 4))));
}

#[test]
fn empty_reply_fails_attempt() {
    let mut reader = ReplyReader::new();
    assert_eq!(
        reader.push(SENTINEL),
        ReadStatus::Complete(Err(TransportError::EmptyOrOversizedFrame))
    );
    assert_eq!(judge_reply(&[0]), Err(TransportError::EmptyOrOversizedFrame));
}

#[test]
fn oversized_reply_fails_attempt() {
    let mut reader = ReplyReader::new();
    for _ in 0..FRAME_CAPACITY - 1 {
        assert_eq!(reader.push(0x31), ReadStatus::More);
    }
    assert_eq!(
        reader.push(0x31),
        ReadStatus::Complete(Err(TransportError::EmptyOrOversizedFrame))
    );
    // The reader starts over.
    let f = frame_of_response(&Response::SetOk);
    assert_eq!(read_reply(&mut reader, &f), Some(Ok(Response::SetOk)));
}

#[test]
fn parse_error_reply_is_rejection() {
    let f = frame_of_response(&Response::ParseError);
    assert_eq!(judge_reply(&f), Err(TransportError::Rejected));
}

#[test]
fn crc_mismatch_reply_fails_attempt() {
    assert_eq!(
        judge_reply(&crc_damaged_set_ok()),
        Err(TransportError::BadFrame(DeserError::CrcError))
    );
    assert_eq!(
        judge_reply(&[4, 9, 9, 0]),
        Err(TransportError::BadFrame(DeserError::ParseError))
    );
}

#[test]
fn request_frame_is_command_frame() {
    let cmd = Command::Get(0x12, 12, 0b001);
    let req = Request::new(&cmd);
    let mut buf = [0u8; FRAME_CAPACITY];
    let n = serialize_crc_cobs(&cmd, &mut buf).unwrap();
    assert_eq!(req.frame(), &buf[..n]);
    assert_eq!(req.writes(), 1);
}

#[test]
fn retries_exhausted_after_max_writes() {
    let mut req = Request::new(&Command::SetValue(1, Message::A, 1));
    let mut writes = 1;
    let result = loop {
        let mut reader = ReplyReader::new();
        let outcome = read_reply(&mut reader, &crc_damaged_set_ok()).unwrap();
        assert_eq!(outcome, Err(TransportError::BadFrame(DeserError::CrcError)));
        match req.finish_attempt(outcome) {
            HostStep::Resend => writes += 1,
            HostStep::Done(r) => break r,
        }
    };
    assert_eq!(result, Err(TransportError::RetriesExhausted));
    assert_eq!(writes, MAX_RETRIES);
    assert_eq!(req.writes(), MAX_RETRIES);
}

#[test]
fn success_after_failures() {
    let mut req = Request::new(&Command::Get(1, 2, 3));
    assert_eq!(req.finish_attempt(Err(TransportError::Rejected)), HostStep::Resend);
    assert_eq!(
        req.finish_attempt(Ok(Response::Data(1, 2, 0, 3))),
        HostStep::Done(Ok(Response::Data(1, 2, 0, 3)))
    );
    assert_eq!(req.writes(), 2);
}

#[test]
fn set_scenario_end_to_end() {
    let cmd = Command::SetValue(0x12, Message::B(12), 0b001);
    let mut req = Request::new(&cmd);
    let mut device = Assembler::new();
    let mut replies = Vec::new();
    for &b in req.frame() {
        replies.extend(device.push(b));
    }
    assert_eq!(replies, vec![DeviceReply::Respond(Response::SetOk)]);
    let answer = frame_of_response(&Response::SetOk);
    let mut reader = ReplyReader::new();
    let outcome = read_reply(&mut reader, &answer).unwrap();
    assert_eq!(req.finish_attempt(outcome), HostStep::Done(Ok(Response::SetOk)));
    assert_eq!(req.writes(), 1);
}
