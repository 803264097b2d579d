//! Field dispatch: resolving each framed field's address key against the
//! message registry, writing the field into the resolved decoder instance,
//! and recording the completed message once its last slot was written.
use crate::generated::spec_gll_cleared;
use crate::generated::spec_gll_set_field;
use crate::generated::NmeaGllMessage;
use crate::generated::NmeaMessages;
use crate::messages::gll_addr;
use crate::messages::AddrField;
use crate::messages::MessageFields;
use crate::messages::MessagesMap;
use crate::find_lf;
use crate::get_message_body;
use crate::scan_lf;
use crate::sentence_events;
use crate::spec_get_message_body;
use crate::FrameSpec;
use crate::HandleField;
use crate::NmeaError;
use crate::NmeaMessage;
use vstd::prelude::*;

verus! {

/// Spec-level state of the field dispatcher: the registry's contents, the
/// completed messages handed to the consumer so far, and the per-field
/// errors recorded so far.
pub ghost struct HandlerModel {
    pub registered: bool,
    pub gll: NmeaGllMessage,
    pub completed: Seq<(NmeaMessages, NmeaGllMessage)>,
    pub errors: Seq<NmeaError>,
}

/// One dispatch step. An address with no registered decoder records
/// `UnknownAddress`. Field index 0 first clears the instance, erasing the
/// previous occupant of that address. A failed decode records the error and
/// leaves the slot unchanged. Writing the slot at index `field_count - 1`
/// completes the message: the fully populated record is appended to
/// `completed`, exactly once per sentence.
pub open spec fn handler_step(
    m: HandlerModel,
    addr: Seq<u8>,
    idx: u8,
    field: Seq<u8>,
) -> HandlerModel {
    if !(m.registered && addr == gll_addr()) {
        HandlerModel { errors: m.errors.push(NmeaError::UnknownAddress), ..m }
    } else {
        let g0 = if idx == 0 {
            spec_gll_cleared()
        } else {
            m.gll
        };
        match spec_gll_set_field(g0, idx, field) {
            Err(e) => HandlerModel { gll: g0, errors: m.errors.push(e), ..m },
            Ok(g1) => {
                if idx == 3 {
                    HandlerModel {
                        gll: g1,
                        completed: m.completed.push((NmeaMessages::GLL, g1)),
                        ..m
                    }
                } else {
                    HandlerModel { gll: g1, ..m }
                }
            },
        }
    }
}

/// The dispatcher's state after handling fields `j`, `j + 1`, ... of one
/// sentence in order, each at its own index.
pub open spec fn replay_fields(
    m: HandlerModel,
    addr: Seq<u8>,
    fields: Seq<Seq<u8>>,
    j: int,
) -> HandlerModel
    decreases fields.len() - j,
{
    if j < 0 || j >= fields.len() {
        m
    } else {
        replay_fields(handler_step(m, addr, j as u8, fields[j]), addr, fields, j + 1)
    }
}

/// Field dispatcher: owns the message registry, resolves each field's
/// address key, and writes the field into the resolved instance. Completed
/// messages and per-field errors are recorded in order, so the driving loop
/// can hand completions to its consumer and a failed field never aborts the
/// stream.
pub struct FieldParseHandler {
    /// The registry of long-lived decoder instances.
    pub all_messages: MessagesMap,
    /// Completed messages in completion order, each with its kind tag.
    pub completed: Vec<(NmeaMessages, NmeaGllMessage)>,
    /// Per-field errors in occurrence order.
    pub errors: Vec<NmeaError>,
    /// The abstract log of fields handled so far.
    pub log: Ghost<Seq<(Seq<u8>, u8, Seq<u8>)>>,
}

impl FieldParseHandler {
    /// The dispatcher's spec-level state.
    pub open spec fn model(self) -> HandlerModel {
        HandlerModel {
            registered: self.all_messages.gll_registered,
            gll: self.all_messages.gll,
            completed: self.completed@,
            errors: self.errors@,
        }
    }

    /// A dispatcher over the given registry, with nothing completed and no
    /// errors yet.
    pub fn new(msgs_map: MessagesMap) -> (r: FieldParseHandler)
        ensures
            r.all_messages == msgs_map,
            r.completed@ == Seq::<(NmeaMessages, NmeaGllMessage)>::empty(),
            r.errors@ == Seq::<NmeaError>::empty(),
            r.handled() == Seq::<(Seq<u8>, u8, Seq<u8>)>::empty(),
    {
        FieldParseHandler {
            all_messages: msgs_map,
            completed: Vec::new(),
            errors: Vec::new(),
            log: Ghost(Seq::empty()),
        }
    }
}

impl HandleField for FieldParseHandler {
    open spec fn handled(&self) -> Seq<(Seq<u8>, u8, Seq<u8>)> {
        self.log@
    }

    /// Handling one field is exactly one `handler_step` on the dispatcher's
    /// state.
    fn handle(&mut self, addr_field: &AddrField, field_idx: u8, field: &[u8])
        ensures
            final(self).model() == handler_step(
                old(self).model(),
                addr_field.data@,
                field_idx,
                field@,
            ),
    {
        self.log = Ghost(self.log@.push((addr_field.data@, field_idx, field@)));
        match self.all_messages.get_mut(addr_field) {
            Some(m) => {
                if field_idx == 0 {
                    m.clear();
                }
                let res = m.set_field(field_idx, field);
                let complete = field_idx == m.field_count() - 1;
                let snapshot = *m;
                match res {
                    Ok(_) => {
                        if complete {
                            self.completed.push((NmeaMessages::GLL, snapshot));
                        }
                    },
                    Err(e) => {
                        self.errors.push(e);
                    },
                }
            },
            None => {
                self.errors.push(NmeaError::UnknownAddress);
            },
        }
    }
}

/// The completion notification fires exactly once per sentence, exactly on
/// the field at index `field_count - 1`, with all prior fields already
/// applied: over the four fields of a GLL sentence whose slots all decode,
/// no intermediate step appends a completion, and the last step appends
/// exactly one, carrying every decoded field.
pub proof fn lemma_complete_fires_once(m: HandlerModel, fields: Seq<Seq<u8>>)
    requires
        m.registered,
        fields.len() == 4,
        crate::messages::spec_decode_opt_decimal(fields[0]) is Ok,
        crate::messages::spec_decode_opt_byte(fields[1]) is Ok,
        crate::messages::spec_decode_opt_decimal(fields[2]) is Ok,
        crate::messages::spec_decode_opt_byte(fields[3]) is Ok,
    ensures
        ({
            let s1 = handler_step(m, gll_addr(), 0, fields[0]);
            let s2 = handler_step(s1, gll_addr(), 1, fields[1]);
            let s3 = handler_step(s2, gll_addr(), 2, fields[2]);
            let s4 = handler_step(s3, gll_addr(), 3, fields[3]);
            &&& replay_fields(m, gll_addr(), fields, 0) == s4
            &&& s1.completed == m.completed
            &&& s2.completed == m.completed
            &&& s3.completed == m.completed
            &&& s4.completed == m.completed.push(
                (
                    NmeaMessages::GLL,
                    NmeaGllMessage {
                        lat: crate::messages::spec_decode_opt_decimal(fields[0])->Ok_0,
                        lat_dir: crate::messages::spec_decode_opt_byte(fields[1])->Ok_0,
                        lon: crate::messages::spec_decode_opt_decimal(fields[2])->Ok_0,
                        lon_dir: crate::messages::spec_decode_opt_byte(fields[3])->Ok_0,
                    },
                ),
            )
            &&& s4.errors == m.errors
        }),
{
    reveal_with_fuel(replay_fields, 6);
}

/// The single-owner parsing engine: one sentence is framed and dispatched
/// per step, and the step decides how far the caller's sliding window
/// advances. The blocking read loop around it belongs to the caller.
pub struct NmeaParser {}

impl NmeaParser {
    /// One driving-loop step over the window `buf`: frames the sentence at
    /// its start, dispatching each field to `field_handler`, and returns the
    /// framed message with the advance amount. A malformed sentence is
    /// reported as its error, with an advance to just past the next line
    /// feed (or the window's end), so the caller can log, skip and resume.
    /// The advance is never zero: the window always makes progress.
    pub fn parse_step<H: HandleField>(buf: &[u8], field_handler: &mut H) -> (r: (
        Result<NmeaMessage, NmeaError>,
        usize,
    ))
        requires
            buf@.len() > 0,
        ensures
            match spec_get_message_body(buf@) {
                Ok(f) => {
                    &&& r.0 is Ok
                    &&& r.0->Ok_0.addr_field@ == f.addr
                    &&& r.0->Ok_0.fields@ == f.fields
                    &&& r.0->Ok_0.crc_ok == f.crc_ok
                    &&& r.1 as int == f.consume
                },
                Err(e) => r.0 == Err::<NmeaMessage, NmeaError>(e) && r.1 as int == (if scan_lf(
                    buf@,
                    0,
                ) < buf@.len() {
                    scan_lf(buf@, 0) + 1
                } else {
                    buf@.len() as int
                }),
            },
            0 < r.1 <= buf@.len(),
            (spec_get_message_body(buf@) is Ok || spec_get_message_body(buf@) == Err::<
                FrameSpec,
                NmeaError,
            >(NmeaError::ChecksumFormatError)) ==> final(field_handler).handled() == old(
                field_handler,
            ).handled() + sentence_events(buf@),
    {
        match get_message_body(buf, field_handler) {
            Ok((consume_amt, msg)) => (Ok(msg), consume_amt),
            Err(e) => {
                let q = find_lf(buf, 0);
                let skip = if q < buf.len() {
                    q + 1
                } else {
                    buf.len()
                };
                (Err(e), skip)
            },
        }
    }
}

} // verus!

