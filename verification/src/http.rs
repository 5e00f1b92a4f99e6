//! The HTTP control API: what each request does to the motor, and the document
//! that answers it.

use crate::hub::TargetError;
use crate::json;
use crate::json::Escaped;
use crate::stepper;
use crate::stepper::{
    Planner, PlannerState, JOG_TIMEOUT_US, MAX_ACCEL_STEPS_PER_S2, MAX_HOLD_US, MAX_STEPS_PER_S,
    MIN_ACCEL_STEPS_PER_S2,
};
use crate::stepper_hw::{self, Reading};
use crate::stm32g0;
use crate::stm32g0::FLASH_BYTES;
use crate::swd;
use crate::text;
use vstd::prelude::*;
use vstd::string::*;
use vstd::utf8::*;

verus! {

/// The longest body of a command.
pub const BODY_LIMIT: usize = 128;

/// The longest frame the display takes.
pub const MAX_DISPLAY_FRAME: usize = 1024;

/// The rate of a move that names none: the nudge buttons only ever vary the
/// distance.
pub const DEFAULT_RATE: i32 = 300;

/// A status and a document.
#[derive(Debug)]
pub struct Answer {
    pub status: u16,
    pub body: String,
}

/// Is this the answer?
pub open spec fn answered(answer: Answer, status: u16, body: Seq<char>) -> bool {
    answer.status == status && answer.body@ == body
}

/// A truth value in a document.
pub open spec fn truth(value: bool) -> Seq<char> {
    if value {
        "true"@
    } else {
        "false"@
    }
}

fn push_truth(out: &mut String, value: bool)
    ensures
        final(out)@ == old(out)@ + truth(value),
{
    if value {
        out.push_str("true");
    } else {
        out.push_str("false");
    }
}

/// What `core::str::Utf8Error` says of bytes that are not UTF-8.
pub uninterp spec fn utf8_complaint(bytes: Seq<u8>) -> Seq<char>;

/// `core::str::from_utf8` refuses bytes that are not UTF-8 with an error whose
/// words depend on the bytes alone.
#[verifier::external_body]
fn complaint_about(bytes: &[u8]) -> (told: String)
    requires
        !valid_utf8(bytes@),
    ensures
        told@ == utf8_complaint(bytes@),
{
    core::str::from_utf8(bytes).unwrap_err().to_string()
}

/// What is said of a body that is too long.
pub open spec fn too_long() -> Seq<char> {
    "body must be at most 128 bytes"@
}

/// The text that a body is, or why it is none.
pub open spec fn body_of(bytes: Seq<u8>) -> Result<Seq<char>, Seq<char>> {
    if bytes.len() > BODY_LIMIT {
        Err(too_long())
    } else if valid_utf8(bytes) {
        Ok(decode_utf8(bytes))
    } else {
        Err(utf8_complaint(bytes))
    }
}

/// Refuses a body by its announced length, before any of it is read.
pub fn check_length(length: usize) -> (checked: Result<(), String>)
    ensures
        match checked {
            Ok(_) => length <= BODY_LIMIT,
            Err(complaint) => length > BODY_LIMIT && complaint@ == too_long(),
        },
{
    if length > BODY_LIMIT {
        Err("body must be at most 128 bytes".to_owned())
    } else {
        Ok(())
    }
}

/// The text that a body is. Every command body is read the same way, so the
/// size limit and the "is it even text" check live in one place.
pub fn read_body(bytes: &[u8]) -> (body: Result<String, String>)
    ensures
        match body {
            Ok(text) => body_of(bytes@) == Ok::<Seq<char>, Seq<char>>(text@),
            Err(complaint) => body_of(bytes@) == Err::<Seq<char>, Seq<char>>(complaint@),
        },
{
    check_length(bytes.len())?;
    match core::str::from_utf8(bytes) {
        Ok(body) => {
            proof {
                encode_utf8_decode_utf8(body@);
            }
            Ok(body.to_owned())
        },
        Err(_) => Err(complaint_about(bytes)),
    }
}

/// A number that a command names, where it fits.
pub open spec fn field(body: Seq<char>, name: Seq<char>) -> Option<i32> {
    match stepper::json_integer(body, name) {
        Some(n) if i32::MIN <= n <= i32::MAX => Some(n as i32),
        _ => None,
    }
}

/// The place of a command in the sequence of its session, where it has one.
pub open spec fn place(body: Seq<char>) -> Option<i64> {
    match stepper::json_integer(body, "seq"@) {
        Some(n) => Some(n as i64),
        None => None,
    }
}

/// The refusal of a body that cannot be used.
pub fn refuse(complaint: &str) -> (answer: Answer)
    ensures
        answered(answer, 400, complaint@ + "\n"@),
{
    let mut body: String = complaint.to_owned();
    body.push_str("\n");
    Answer { status: 400, body }
}

/// The document that tells how the motor is.
pub open spec fn status_body(state: PlannerState) -> Seq<char> {
    "{\"ok\":true,\"position\":"@ + text::signed_decimal(state.position) + ",\"steps_per_s\":"@
        + text::signed_decimal(state.rate) + ",\"moving\":"@ + truth(state.rate != 0)
        + ",\"remaining\":"@ + (match state.remaining {
        Some(left) => text::decimal(left as nat),
        None => "null"@,
    }) + ",\"max_steps_per_s\":"@ + text::decimal(MAX_STEPS_PER_S as nat) + ",\"accel\":"@
        + text::signed_decimal(state.accel) + ",\"min_accel\":"@ + text::signed_decimal(
        MIN_ACCEL_STEPS_PER_S2 as int,
    ) + ",\"max_accel\":"@ + text::signed_decimal(MAX_ACCEL_STEPS_PER_S2 as int) + "}\n"@
}

/// Tells how the motor is.
pub fn status(planner: &Planner) -> (answer: Answer)
    ensures
        answered(answer, 200, status_body(planner@)),
{
    let mut body: String = String::new();
    body.push_str("{\"ok\":true,\"position\":");
    text::push_signed(&mut body, planner.position());
    body.push_str(",\"steps_per_s\":");
    text::push_signed(&mut body, planner.rate() as i64);
    body.push_str(",\"moving\":");
    push_truth(&mut body, planner.is_moving());
    body.push_str(",\"remaining\":");
    match planner.remaining() {
        Some(left) => text::push_decimal(&mut body, left as u64),
        None => body.push_str("null"),
    }
    body.push_str(",\"max_steps_per_s\":");
    text::push_decimal(&mut body, MAX_STEPS_PER_S as u64);
    body.push_str(",\"accel\":");
    text::push_signed(&mut body, planner.accel() as i64);
    body.push_str(",\"min_accel\":");
    text::push_signed(&mut body, MIN_ACCEL_STEPS_PER_S2 as i64);
    body.push_str(",\"max_accel\":");
    text::push_signed(&mut body, MAX_ACCEL_STEPS_PER_S2 as i64);
    body.push_str("}\n");
    assert(body@ =~= status_body(planner@));
    Answer { status: 200, body }
}

/// A short document around one signed number.
fn tell(before: &str, number: i64, after: &str) -> (answer: Answer)
    ensures
        answered(answer, 200, before@ + text::signed_decimal(number as int) + after@),
{
    let mut body: String = before.to_owned();
    text::push_signed(&mut body, number);
    body.push_str(after);
    Answer { status: 200, body }
}

/// What a jog does to the motor: nothing but note its place, where a later
/// command has been obeyed already.
pub open spec fn jogged(before: PlannerState, body: Seq<char>, rate: int, now: int) -> PlannerState {
    let noted = before.noted(place(body));
    if before.obeys(place(body)) {
        noted.jogged(rate, now, JOG_TIMEOUT_US as int)
    } else {
        noted
    }
}

/// Runs the motor at the rate that a command names, until it expires. The
/// answer tells the rate that is in force.
pub fn jog(planner: &mut Planner, body: &str, now_us: u64) -> (answer: Answer)
    requires
        old(planner)@.wf(),
        field(body@, "steps_per_s"@) matches Some(rate) ==> old(planner)@.obeys(place(body@))
            ==> old(planner)@.can_jog(rate as int, now_us as int, JOG_TIMEOUT_US as int),
    ensures
        final(planner)@.wf(),
        match field(body@, "steps_per_s"@) {
            None => final(planner)@ == old(planner)@ && answered(
                answer,
                400,
                "expected {\"steps_per_s\":<integer>}\n"@,
            ),
            Some(rate) => final(planner)@ == jogged(
                old(planner)@,
                body@,
                rate as int,
                now_us as int,
            ) && answered(
                answer,
                200,
                "{\"ok\":true,\"steps_per_s\":"@ + text::signed_decimal(final(planner)@.rate)
                    + "}\n"@,
            ),
        },
{
    match stepper::json_i32(body, "steps_per_s") {
        None => Answer {
            status: 400,
            body: "expected {\"steps_per_s\":<integer>}\n".to_owned(),
        },
        Some(rate) => {
            if planner.accept(stepper::json_i64(body, "seq")) {
                planner.jog(rate, now_us);
            }
            tell("{\"ok\":true,\"steps_per_s\":", planner.rate() as i64, "}\n")
        },
    }
}

/// The rate of a move: a negative one is none.
pub open spec fn move_rate(body: Seq<char>) -> int {
    match field(body, "steps_per_s"@) {
        Some(rate) => if rate < 0 {
            0
        } else {
            rate as int
        },
        None => DEFAULT_RATE as int,
    }
}

/// What a bounded move does to the motor.
pub open spec fn moved(before: PlannerState, body: Seq<char>, steps: int, now: int) -> PlannerState {
    let noted = before.noted(place(body));
    if before.obeys(place(body)) {
        noted.moved(steps, move_rate(body), now)
    } else {
        noted
    }
}

/// Moves the motor by the steps that a command names.
pub fn move_by(planner: &mut Planner, body: &str, now_us: u64) -> (answer: Answer)
    requires
        old(planner)@.wf(),
        field(body@, "steps"@) matches Some(steps) ==> old(planner)@.obeys(place(body@))
            ==> old(planner)@.can_move(steps as int, move_rate(body@), now_us as int),
    ensures
        final(planner)@.wf(),
        match field(body@, "steps"@) {
            None => final(planner)@ == old(planner)@ && answered(
                answer,
                400,
                "expected {\"steps\":<integer>,\"steps_per_s\":<integer>}\n"@,
            ),
            Some(steps) => final(planner)@ == moved(
                old(planner)@,
                body@,
                steps as int,
                now_us as int,
            ) && answered(
                answer,
                200,
                "{\"ok\":true,\"steps\":"@ + text::signed_decimal(steps as int) + "}\n"@,
            ),
        },
{
    match stepper::json_i32(body, "steps") {
        None => Answer {
            status: 400,
            body: "expected {\"steps\":<integer>,\"steps_per_s\":<integer>}\n".to_owned(),
        },
        Some(steps) => {
            let rate: u32 = match stepper::json_i32(body, "steps_per_s") {
                Some(rate) => if rate < 0 {
                    0
                } else {
                    rate as u32
                },
                None => DEFAULT_RATE as u32,
            };
            if planner.accept(stepper::json_i64(body, "seq")) {
                planner.move_by(steps, rate, now_us);
            }
            tell("{\"ok\":true,\"steps\":", steps as i64, "}\n")
        },
    }
}

/// The excitation state that a command wants held.
pub open spec fn held_state(body: Seq<char>) -> int {
    match field(body, "state"@) {
        Some(state) => state as int,
        None => 0,
    }
}

/// For how many seconds.
pub open spec fn held_seconds(body: Seq<char>) -> int {
    match field(body, "seconds"@) {
        Some(seconds) => seconds as int,
        None => 3,
    }
}

/// The seconds that a hold is bounded to.
pub open spec fn bounded_seconds(seconds: int) -> int {
    if seconds * 1_000_000 < MAX_HOLD_US {
        seconds
    } else {
        MAX_HOLD_US as int / 1_000_000
    }
}

/// Holds one excitation state so a meter can be put across the bridges and
/// answer whether the driver responds to its inputs at all.
pub fn hold(planner: &mut Planner, body: &str, now_us: u64) -> (answer: Answer)
    requires
        old(planner)@.wf(),
        0 <= held_state(body@) <= 7 && held_seconds(body@) > 0 ==> now_us + stepper::held(
            held_seconds(body@) * 1_000_000,
            0,
            MAX_HOLD_US as int,
        ) <= u64::MAX,
    ensures
        final(planner)@.wf(),
        if 0 <= held_state(body@) <= 7 && held_seconds(body@) > 0 {
            &&& final(planner)@ == old(planner)@.held_at(
                held_state(body@),
                held_seconds(body@) * 1_000_000,
                now_us as int,
            )
            &&& answered(
                answer,
                200,
                "{\"ok\":true,\"state\":"@ + text::decimal(held_state(body@) as nat)
                    + ",\"seconds\":"@ + text::decimal(
                    bounded_seconds(held_seconds(body@)) as nat,
                ) + "}\n"@,
            )
        } else {
            final(planner)@ == old(planner)@ && answered(
                answer,
                400,
                "expected {\"state\":0..=7,\"seconds\":<positive integer>}\n"@,
            )
        },
{
    let state: i32 = match stepper::json_i32(body, "state") {
        Some(state) => state,
        None => 0,
    };
    let seconds: i32 = match stepper::json_i32(body, "seconds") {
        Some(seconds) => seconds,
        None => 3,
    };
    if state < 0 || state > 7 || seconds <= 0 {
        return Answer {
            status: 400,
            body: "expected {\"state\":0..=7,\"seconds\":<positive integer>}\n".to_owned(),
        };
    }
    let hold_us: u64 = seconds as u64 * 1_000_000;
    planner.hold_state(state as u8, hold_us, now_us);
    let bounded: u64 = if hold_us < MAX_HOLD_US {
        seconds as u64
    } else {
        MAX_HOLD_US / 1_000_000
    };
    let mut out: String = String::new();
    out.push_str("{\"ok\":true,\"state\":");
    text::push_decimal(&mut out, state as u64);
    out.push_str(",\"seconds\":");
    text::push_decimal(&mut out, bounded);
    out.push_str("}\n");
    assert(out@ =~= "{\"ok\":true,\"state\":"@ + text::decimal(held_state(body@) as nat)
        + ",\"seconds\":"@ + text::decimal(bounded_seconds(held_seconds(body@)) as nat) + "}\n"@);
    Answer { status: 200, body: out }
}

/// A failure in a document of its own.
pub open spec fn failure_body(error: Seq<char>) -> Seq<char> {
    "{\"ok\":false,\"error\":\""@ + error + "\"}\n"@
}

/// A failure in a document of its own.
pub fn fail(status: u16, error: &str) -> (answer: Answer)
    ensures
        answered(answer, status, failure_body(error@)),
{
    let mut body: String = "{\"ok\":false,\"error\":\"".to_owned();
    body.push_str(error);
    body.push_str("\"}\n");
    Answer { status, body }
}

/// Retunes the acceleration. Clamped in the planner rather than here, so the
/// bounds cannot drift apart from the ramp that has to honour them.
pub fn configure(planner: &mut Planner, body: &str) -> (answer: Answer)
    requires
        old(planner)@.wf(),
    ensures
        final(planner)@.wf(),
        match field(body@, "accel"@) {
            None => final(planner)@ == old(planner)@ && answered(
                answer,
                400,
                failure_body("expected an accel field"@),
            ),
            Some(accel) => {
                let applied = stepper::held(
                    accel as int,
                    MIN_ACCEL_STEPS_PER_S2 as int,
                    MAX_ACCEL_STEPS_PER_S2 as int,
                );
                &&& final(planner)@ == (PlannerState { accel: applied, ..old(planner)@ })
                &&& answered(
                    answer,
                    200,
                    "{\"ok\":true,\"accel\":"@ + text::signed_decimal(applied) + "}\n"@,
                )
            },
        },
{
    match stepper::json_i32(body, "accel") {
        None => fail(400, "expected an accel field"),
        Some(accel) => {
            planner.set_accel(accel);
            tell("{\"ok\":true,\"accel\":", planner.accel() as i64, "}\n")
        },
    }
}

/// Stops the motor, and drops its windings where that is asked for. A stop is
/// obeyed wherever it stands in its sequence, and notes its place.
pub fn stop(planner: &mut Planner, release: bool, body: &str, now_us: u64) -> (answer: Answer)
    requires
        old(planner)@.wf(),
        old(planner)@.can_hold(now_us as int),
    ensures
        final(planner)@.wf(),
        ({
            let stopped = old(planner)@.noted(place(body@)).stopped(now_us as int);
            final(planner)@ == (if release {
                PlannerState { holding: false, ..stopped }
            } else {
                stopped
            })
        }),
        answered(answer, 200, "{\"ok\":true}\n"@),
{
    planner.observe(stepper::json_i64(body, "seq"));
    if release {
        planner.release(now_us);
    } else {
        planner.stop(now_us);
    }
    done()
}

/// The answer of a command that has nothing else to say.
pub fn done() -> (answer: Answer)
    ensures
        answered(answer, 200, "{\"ok\":true}\n"@),
{
    Answer { status: 200, body: "{\"ok\":true}\n".to_owned() }
}

/// One pin in the report of a self-test: whether it read back high when driven
/// high, and low when driven low.
pub open spec fn pin_body(name: Seq<char>, gpio: i32, bits: int) -> Seq<char> {
    "{\"name\":\""@ + name + "\",\"gpio\":"@ + text::signed_decimal(gpio as int)
        + ",\"drove_high\":"@ + truth(bits % 2 != 0) + ",\"drove_low\":"@ + truth(bits / 2 % 2 != 0)
        + "}"@
}

/// The report of a self-test, two bits a pin.
pub open spec fn selftest_body(bits: int, gpio: [i32; 4]) -> Seq<char> {
    "{\"ok\":true,\"pins\":["@ + pin_body("ain1"@, gpio@[0], bits % 4) + ","@ + pin_body(
        "ain2"@,
        gpio@[1],
        bits / 4 % 4,
    ) + ","@ + pin_body("bin1"@, gpio@[2], bits / 16 % 4) + ","@ + pin_body(
        "bin2"@,
        gpio@[3],
        bits / 64 % 4,
    ) + "],\"all_pins_drive\":"@ + truth(bits % 256 == 255) + "}\n"@
}

fn push_pin(out: &mut String, name: &str, gpio: i32, bits: u32)
    ensures
        final(out)@ == old(out)@ + pin_body(name@, gpio, bits as int),
{
    out.push_str("{\"name\":\"");
    out.push_str(name);
    out.push_str("\",\"gpio\":");
    text::push_signed(out, gpio as i64);
    out.push_str(",\"drove_high\":");
    push_truth(out, bits % 2 != 0);
    out.push_str(",\"drove_low\":");
    push_truth(out, bits / 2 % 2 != 0);
    out.push_str("}");
    assert(out@ =~= old(out)@ + pin_body(name@, gpio, bits as int));
}

/// Reports a self-test. All four passing means the pads follow what is written
/// to them. It does not mean anything past the pad is right.
pub fn selftest(result: Option<u32>, gpio: [i32; 4]) -> (answer: Answer)
    ensures
        match result {
            Some(bits) => answered(answer, 200, selftest_body(bits as int, gpio)),
            None => answered(answer, 503, failure_body("the stepper timer did not answer"@)),
        },
{
    let bits: u32 = match result {
        Some(bits) => bits,
        None => return fail(503, "the stepper timer did not answer"),
    };
    let mut body: String = String::new();
    body.push_str("{\"ok\":true,\"pins\":[");
    push_pin(&mut body, "ain1", gpio[0], bits % 4);
    body.push_str(",");
    push_pin(&mut body, "ain2", gpio[1], bits / 4 % 4);
    body.push_str(",");
    push_pin(&mut body, "bin1", gpio[2], bits / 16 % 4);
    body.push_str(",");
    push_pin(&mut body, "bin2", gpio[3], bits / 64 % 4);
    body.push_str("],\"all_pins_drive\":");
    push_truth(&mut body, bits % 256 == 255);
    body.push_str("}\n");
    assert(body@ =~= selftest_body(bits as int, gpio));
    Answer { status: 200, body }
}

/// An address in dotted form.
pub open spec fn dotted(ip: Seq<u8>) -> Seq<char> {
    text::decimal(ip[0] as nat) + "."@ + text::decimal(ip[1] as nat) + "."@ + text::decimal(
        ip[2] as nat,
    ) + "."@ + text::decimal(ip[3] as nat)
}

/// The health document.
pub open spec fn health_body(ok: bool, ip: Seq<u8>, ssid: Seq<char>) -> Seq<char> {
    "{\"ok\":"@ + truth(ok) + ",\"service\":\"esprobe\",\"ip\":\""@ + dotted(ip) + "\",\"ssid\":\""@
        + json::escape(ssid) + "\"}\n"@
}

/// Appends an address in dotted form.
pub fn push_dotted(out: &mut String, ip: [u8; 4])
    ensures
        final(out)@ == old(out)@ + dotted(ip@),
{
    text::push_decimal(out, ip[0] as u64);
    out.push_str(".");
    text::push_decimal(out, ip[1] as u64);
    out.push_str(".");
    text::push_decimal(out, ip[2] as u64);
    out.push_str(".");
    text::push_decimal(out, ip[3] as u64);
    assert(out@ =~= old(out)@ + dotted(ip@));
}

/// Answers whether the probe is healthy, with its network where that is known.
/// An endpoint that cannot fail is not a health check, so a probe whose radio
/// state is lost answers no.
pub fn health(network: Option<(&str, [u8; 4])>) -> (answer: Answer)
    ensures
        match network {
            Some((ssid, ip)) => answered(answer, 200, health_body(true, ip@, ssid@)),
            None => answered(
                answer,
                503,
                health_body(false, seq![0u8, 0, 0, 0], Seq::<char>::empty()),
            ),
        },
{
    let ok: bool = network.is_some();
    let none: [u8; 4] = [0, 0, 0, 0];
    assert(none@ =~= seq![0u8, 0, 0, 0]);
    let ip: [u8; 4] = match network {
        Some((_, ip)) => ip,
        None => none,
    };
    let ssid: String = match network {
        Some((ssid, _)) => Escaped(ssid).to_string(),
        None => String::new(),
    };
    let ghost name = match network {
        Some((ssid, _)) => ssid@,
        None => Seq::empty(),
    };
    assert(ssid@ =~= json::escape(name));
    let mut body: String = String::new();
    body.push_str("{\"ok\":");
    push_truth(&mut body, ok);
    body.push_str(",\"service\":\"esprobe\",\"ip\":\"");
    push_dotted(&mut body, ip);
    body.push_str("\",\"ssid\":\"");
    body.push_str(ssid.as_str());
    body.push_str("\"}\n");
    assert(body@ =~= health_body(ok, ip@, name));
    let status: u16 = if ok {
        200
    } else {
        503
    };
    Answer { status, body }
}

/// Both identities of a target, as a document ends with them.
pub open spec fn identities(dp: u32, device: u32) -> Seq<char> {
    "\"dp_id\":\"0x"@ + text::hex(dp as nat, 8) + "\",\"device_id\":\"0x"@ + text::hex(
        device as nat,
        8,
    ) + "\"}\n"@
}

fn push_identities(out: &mut String, dp: u32, device: u32)
    ensures
        final(out)@ == old(out)@ + identities(dp, device),
{
    out.push_str("\"dp_id\":\"0x");
    text::push_hex(out, dp as u64, 8);
    out.push_str("\",\"device_id\":\"0x");
    text::push_hex(out, device as u64, 8);
    out.push_str("\"}\n");
    assert(out@ =~= old(out)@ + identities(dp, device));
}

/// Answers with what a target is, or why it could not be told.
pub fn probed(result: Result<(u32, u32), &str>) -> (answer: Answer)
    ensures
        match result {
            Ok((dp, device)) => answered(
                answer,
                200,
                "{\"ok\":true,"@ + identities(dp, device),
            ),
            Err(error) => answered(answer, 502, failure_body(error@)),
        },
{
    match result {
        Ok((dp, device)) => {
            let mut body: String = "{\"ok\":true,".to_owned();
            push_identities(&mut body, dp, device);
            Answer { status: 200, body }
        },
        Err(error) => fail(502, error),
    }
}

/// Refuses an image by its announced length, before any of it is read.
pub fn check_image(length: usize) -> (refusal: Option<Answer>)
    ensures
        match refusal {
            None => 1 <= length <= FLASH_BYTES,
            Some(answer) => !(1 <= length <= FLASH_BYTES) && answered(
                answer,
                413,
                "binary image must be 1..=65536 bytes\n"@,
            ),
        },
{
    if length == 0 || length > FLASH_BYTES {
        Some(
            Answer { status: 413, body: "binary image must be 1..=65536 bytes\n".to_owned() },
        )
    } else {
        None
    }
}

/// Answers with what was programmed, or why it could not be.
pub fn flashed(length: usize, result: Result<(u32, u32), &str>) -> (answer: Answer)
    ensures
        match result {
            Ok((dp, device)) => answered(
                answer,
                200,
                "{\"ok\":true,\"bytes\":"@ + text::decimal(length as nat) + ",\"verified\":true,"@
                    + identities(dp, device),
            ),
            Err(error) => answered(answer, 502, failure_body(error@)),
        },
{
    match result {
        Ok((dp, device)) => {
            let mut body: String = "{\"ok\":true,\"bytes\":".to_owned();
            text::push_decimal(&mut body, length as u64);
            body.push_str(",\"verified\":true,");
            push_identities(&mut body, dp, device);
            Answer { status: 200, body }
        },
        Err(error) => fail(502, error),
    }
}

/// Refuses a display frame by its announced length.
pub fn check_frame(length: usize) -> (refusal: Option<Answer>)
    ensures
        match refusal {
            None => 1 <= length <= MAX_DISPLAY_FRAME,
            Some(answer) => !(1 <= length <= MAX_DISPLAY_FRAME) && answered(
                answer,
                413,
                "display frame must be 1..=1024 bytes\n"@,
            ),
        },
{
    if length == 0 || length > MAX_DISPLAY_FRAME {
        Some(
            Answer { status: 413, body: "display frame must be 1..=1024 bytes\n".to_owned() },
        )
    } else {
        None
    }
}

/// Answers with how much of a display frame was taken.
pub fn displayed(written: usize) -> (answer: Answer)
    ensures
        answered(
            answer,
            200,
            "{\"ok\":true,\"bytes\":"@ + text::decimal(written as nat) + "}\n"@,
        ),
{
    let mut body: String = "{\"ok\":true,\"bytes\":".to_owned();
    text::push_decimal(&mut body, written as u64);
    body.push_str("}\n");
    Answer { status: 200, body }
}

/// A failure of the wire by its name.
pub open spec fn wire_words(error: swd::Error) -> Seq<char> {
    match error {
        swd::Error::InvalidDpId => "InvalidDpId"@,
        swd::Error::PowerTimeout => "PowerTimeout"@,
        swd::Error::WaitTimeout => "WaitTimeout"@,
        swd::Error::Fault => "Fault"@,
        swd::Error::Protocol(ack) => "Protocol("@ + text::decimal(ack as nat) + ")"@,
        swd::Error::Parity => "Parity"@,
        swd::Error::Unaligned => "Unaligned"@,
        swd::Error::LineHeldLow => "LineHeldLow"@,
    }
}

/// A failure of the device by its name.
pub open spec fn device_words(error: stm32g0::Error) -> Seq<char> {
    match error {
        stm32g0::Error::Transport(error) => "Transport("@ + wire_words(error) + ")"@,
        stm32g0::Error::Empty => "Empty"@,
        stm32g0::Error::TooLarge => "TooLarge"@,
        stm32g0::Error::InvalidDevice(id) => "InvalidDevice("@ + text::decimal(id as nat) + ")"@,
        stm32g0::Error::HaltTimeout => "HaltTimeout"@,
        stm32g0::Error::UnlockFailed => "UnlockFailed"@,
        stm32g0::Error::BusyTimeout => "BusyTimeout"@,
        stm32g0::Error::FlashStatus(status) => "FlashStatus("@ + text::decimal(status as nat)
            + ")"@,
        stm32g0::Error::Verify { address, expected, observed } => "Verify { address: "@
            + text::decimal(address as nat) + ", expected: "@ + text::decimal(expected as nat)
            + ", observed: "@ + text::decimal(observed as nat) + " }"@,
    }
}

/// Why a target could not be identified or programmed, in words.
pub open spec fn target_words(error: TargetError) -> Seq<char> {
    match error {
        TargetError::NoWire => "SWD engine unavailable"@,
        TargetError::Wire(error) => wire_words(error),
        TargetError::Device(error) => device_words(error),
    }
}

fn push_wire(out: &mut String, error: swd::Error)
    ensures
        final(out)@ == old(out)@ + wire_words(error),
{
    match error {
        swd::Error::InvalidDpId => out.push_str("InvalidDpId"),
        swd::Error::PowerTimeout => out.push_str("PowerTimeout"),
        swd::Error::WaitTimeout => out.push_str("WaitTimeout"),
        swd::Error::Fault => out.push_str("Fault"),
        swd::Error::Protocol(ack) => {
            out.push_str("Protocol(");
            text::push_decimal(out, ack as u64);
            out.push_str(")");
        },
        swd::Error::Parity => out.push_str("Parity"),
        swd::Error::Unaligned => out.push_str("Unaligned"),
        swd::Error::LineHeldLow => out.push_str("LineHeldLow"),
    }
    assert(out@ =~= old(out)@ + wire_words(error));
}

fn push_device(out: &mut String, error: stm32g0::Error)
    ensures
        final(out)@ == old(out)@ + device_words(error),
{
    match error {
        stm32g0::Error::Transport(error) => {
            out.push_str("Transport(");
            push_wire(out, error);
            out.push_str(")");
        },
        stm32g0::Error::Empty => out.push_str("Empty"),
        stm32g0::Error::TooLarge => out.push_str("TooLarge"),
        stm32g0::Error::InvalidDevice(id) => {
            out.push_str("InvalidDevice(");
            text::push_decimal(out, id as u64);
            out.push_str(")");
        },
        stm32g0::Error::HaltTimeout => out.push_str("HaltTimeout"),
        stm32g0::Error::UnlockFailed => out.push_str("UnlockFailed"),
        stm32g0::Error::BusyTimeout => out.push_str("BusyTimeout"),
        stm32g0::Error::FlashStatus(status) => {
            out.push_str("FlashStatus(");
            text::push_decimal(out, status as u64);
            out.push_str(")");
        },
        stm32g0::Error::Verify { address, expected, observed } => {
            out.push_str("Verify { address: ");
            text::push_decimal(out, address as u64);
            out.push_str(", expected: ");
            text::push_decimal(out, expected as u64);
            out.push_str(", observed: ");
            text::push_decimal(out, observed as u64);
            out.push_str(" }");
        },
    }
    assert(out@ =~= old(out)@ + device_words(error));
}

/// Why a target could not be identified or programmed, in words.
pub fn target_error(error: TargetError) -> (told: String)
    ensures
        told@ == target_words(error),
{
    let mut told: String = String::new();
    match error {
        TargetError::NoWire => told.push_str("SWD engine unavailable"),
        TargetError::Wire(error) => push_wire(&mut told, error),
        TargetError::Device(error) => push_device(&mut told, error),
    }
    assert(told@ =~= target_words(error));
    told
}

/// Why nothing was driven into a target, in words: its power is not proven.
pub fn power_not_proven(clock_high: bool) -> (told: String)
    ensures
        told@ == "target power not proven: released STM32 SWDIO is low (SWCLK="@ + (
        if clock_high {
            "true"@
        } else {
            "false"@
        }) + ")"@,
{
    let mut told: String = String::new();
    told.push_str("target power not proven: released STM32 SWDIO is low (SWCLK=");
    if clock_high {
        told.push_str("true");
    } else {
        told.push_str("false");
    }
    told.push_str(")");
    assert(told@ =~= "target power not proven: released STM32 SWDIO is low (SWCLK="@ + (
    if clock_high {
        "true"@
    } else {
        "false"@
    }) + ")"@);
    told
}

/// A jog that was overtaken by a later command changes nothing about the
/// motion: the motor keeps doing what the later command said.
pub proof fn law_an_overtaken_jog_is_dropped(
    before: PlannerState,
    body: Seq<char>,
    rate: int,
    now: int,
)
    requires
        place(body) matches Some(at) && at <= before.last_seq,
    ensures
        jogged(before, body, rate, now) == before,
        moved(before, body, rate, now) == before,
{
}

/// Whatever a network is called, the health document quotes its name as one
/// string, which ends at the quote that the document closes it with.
pub proof fn law_health_quotes_any_name(ssid: Seq<char>)
    ensures
        json::literal_end(json::escape(ssid) + "\"}\n"@) == Some(json::escape(ssid).len()),
{
    reveal_strlit("\"}\n");
    let tail = "\"}\n"@;
    json::law_an_escaped_text_stays_one_string(ssid, tail.skip(1));
    assert(tail =~= seq!['"'] + tail.skip(1));
}

/// What a command leaves out: a move goes at 300 steps a second and not
/// backwards, and a hold is of state 0 for three seconds, never for more than
/// ten.
pub proof fn law_what_a_command_leaves_out(body: Seq<char>, seconds: int)
    ensures
        field(body, "steps_per_s"@) is None ==> move_rate(body) == 300,
        field(body, "steps_per_s"@) matches Some(rate) ==> move_rate(body) == (if rate >= 0 {
            rate as int
        } else {
            0int
        }),
        field(body, "state"@) is None ==> held_state(body) == 0,
        field(body, "state"@) matches Some(state) ==> held_state(body) == state,
        field(body, "seconds"@) is None ==> held_seconds(body) == 3,
        field(body, "seconds"@) matches Some(told) ==> held_seconds(body) == told,
        0 < seconds <= 10 ==> bounded_seconds(seconds) == seconds,
        seconds > 10 ==> bounded_seconds(seconds) == 10,
{
}

/// A jog that is obeyed runs at what was asked, at most 1000 steps a second
/// either way, and for 400 milliseconds; one that is obeyed is newer than all
/// before it and the newest from then on.
pub proof fn law_a_jog_runs_and_expires(
    before: PlannerState,
    body: Seq<char>,
    rate: int,
    now: int,
)
    requires
        rate != 0,
    ensures
        ({
            let after = jogged(before, body, rate, now);
            let newer = place(body) matches Some(at) ==> at > before.last_seq;
            &&& newer ==> after.remaining is None && after.expires_at == now + 400_000 && after.target
                == (if rate > 1000 {
                1000int
            } else if rate < -1000 {
                -1000int
            } else {
                rate
            })
            &&& !newer ==> after == before
            &&& (place(body) matches Some(at) && newer) ==> after.last_seq == place(body)->Some_0
            &&& place(body) is None ==> after.last_seq == before.last_seq
            &&& after.position == before.position
        }),
{
}

/// A body is taken up to 128 bytes, and only where it is text.
pub proof fn law_a_body_is_short_text(bytes: Seq<u8>)
    ensures
        body_of(bytes) is Ok <==> bytes.len() <= 128 && valid_utf8(bytes),
        body_of(bytes) matches Ok(text) ==> text == decode_utf8(bytes),
{
}

/// A self-test is reported pin by pin, as each read back: the first reading is
/// of the first pin, and all of them drive where every one read back both ways.
#[verifier::spinoff_prover]
#[verifier::rlimit(60)]
pub proof fn law_a_selftest_tells_each_pin(readings: [Reading; 4], gpio: [i32; 4])
    ensures
        selftest_body(stepper_hw::readings_bits(readings), gpio) == "{\"ok\":true,\"pins\":["@
            + pin_told("ain1"@, gpio@[0], readings@[0]) + ","@ + pin_told(
            "ain2"@,
            gpio@[1],
            readings@[1],
        ) + ","@ + pin_told("bin1"@, gpio@[2], readings@[2]) + ","@ + pin_told(
            "bin2"@,
            gpio@[3],
            readings@[3],
        ) + "],\"all_pins_drive\":"@ + truth(
            readings@[0].high && readings@[0].low && readings@[1].high && readings@[1].low
                && readings@[2].high && readings@[2].low && readings@[3].high && readings@[3].low,
        ) + "}\n"@,
{
    lemma_pins_apart(readings);
    lemma_pin_told("ain1"@, gpio@[0], readings@[0]);
    lemma_pin_told("ain2"@, gpio@[1], readings@[1]);
    lemma_pin_told("bin1"@, gpio@[2], readings@[2]);
    lemma_pin_told("bin2"@, gpio@[3], readings@[3]);
}

proof fn lemma_pins_apart(readings: [Reading; 4])
    ensures
        ({
            let bits = stepper_hw::readings_bits(readings);
            &&& bits % 4 == stepper_hw::reading_bits(readings@[0])
            &&& bits / 4 % 4 == stepper_hw::reading_bits(readings@[1])
            &&& bits / 16 % 4 == stepper_hw::reading_bits(readings@[2])
            &&& bits / 64 % 4 == stepper_hw::reading_bits(readings@[3])
            &&& (bits % 256 == 255) == (readings@[0].high && readings@[0].low && readings@[1].high
                && readings@[1].low && readings@[2].high && readings@[2].low && readings@[3].high
                && readings@[3].low)
        }),
{
    stepper_hw::law_each_pin_has_its_two_bits(readings);
}

proof fn lemma_pin_told(name: Seq<char>, gpio: i32, reading: Reading)
    ensures
        pin_body(name, gpio, stepper_hw::reading_bits(reading)) == pin_told(name, gpio, reading),
{
    let bits = stepper_hw::reading_bits(reading);
    assert((bits % 2 != 0) == reading.high);
    assert((bits / 2 % 2 != 0) == reading.low);
}

/// A pin in the report of a self-test, told by its reading.
pub open spec fn pin_told(name: Seq<char>, gpio: i32, reading: Reading) -> Seq<char> {
    "{\"name\":\""@ + name + "\",\"gpio\":"@ + text::signed_decimal(gpio as int)
        + ",\"drove_high\":"@ + truth(reading.high) + ",\"drove_low\":"@ + truth(reading.low)
        + "}"@
}

/// A move that is obeyed goes as many steps as it names and that way, at the
/// rate that it names and at most at 1000 steps a second; one that names no
/// steps, or no rate, stops.
pub proof fn law_a_move_goes_as_far_as_it_names(
    before: PlannerState,
    body: Seq<char>,
    steps: int,
    now: int,
)
    requires
        i32::MIN < steps <= i32::MAX,
        place(body) matches Some(at) ==> at > before.last_seq,
    ensures
        ({
            let after = moved(before, body, steps, now);
            let rate = if move_rate(body) > 1000 {
                1000int
            } else {
                move_rate(body)
            };
            &&& steps > 0 && rate > 0 ==> after.remaining == Some(steps as u32) && after.target
                == rate
            &&& steps < 0 && rate > 0 ==> after.remaining == Some((-steps) as u32) && after.target
                == -rate
            &&& steps == 0 || rate == 0 ==> after.remaining is None && after.target == 0
                && after.rate == 0
            &&& after.position == before.position
            &&& place(body) matches Some(at) ==> after.last_seq == at
        }),
{
}

} // verus!
