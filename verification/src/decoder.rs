//! Decoding of one raw input message, as a dialogue.
//!
//! The decoder never touches the system. It says what it needs next, its
//! caller gets that from the system and hands the answer back, until the
//! decoder has nothing left to ask:
//!
//! 1. how large the message is, and its bytes,
//! 2. what kind of device sent it, and the reports that it holds,
//! 3. the device's preparsed report descriptor and its value fields,
//! 4. for each report in turn: the value of every field, then the button
//!    usages of every finger slot that turned up; then the frame is drawn.
//!
//! A message that turns out to be empty, unreadable or not from a HID device
//! is dropped without an error.

use std::collections::BTreeMap;
use vstd::prelude::*;

use crate::contact::{
    decoded, fingers, lemma_decoded_start, lemma_decoded_step, lemma_tallied_step, links_of,
    record_tip, record_value, sorted_links, tallied, Contact, UsageList,
};
use crate::debug_render::{active, can_render, frame, render_grid, renderable};
use crate::hid::{axis_ranges, ranges_of, AxisRanges, ValueCap, HID_USAGE_PAGE_DIGITIZER};

verus! {

/// The device type of a raw input message that comes from a HID device which is
/// neither a mouse nor a keyboard.
pub const RIM_TYPEHID: u32 = 2;

/// What the system returns in place of a byte count when it could not copy a
/// message.
pub const COPY_FAILED: u32 = 0xffff_ffff;

/// What the decoder needs next.
#[derive(Debug, Clone, Copy, PartialEq, Eq, Structural)]
pub enum Request {
    /// The size of the message, in bytes.
    RawSize,
    /// The message itself, copied into a buffer of this size.
    RawData { size: u32 },
    /// The device type in the header of the message.
    DeviceType,
    /// The reports that the message holds.
    Payload,
    /// The size of the device's preparsed descriptor, in bytes.
    PreparsedSize,
    /// The preparsed descriptor, copied into a buffer of this size.
    Preparsed { size: u32 },
    /// How many value fields the descriptor has for input reports.
    ValueCapCount,
    /// The value fields.
    ValueCaps { count: u16 },
    /// The value of one field in the current report.
    Value { report: u32, usage_page: u16, link_collection: u16, usage: u16 },
    /// The button usages that are on in one link collection of the current
    /// report.
    Usages { report: u32, usage_page: u16, link_collection: u16 },
    /// The contacts of the current report are complete and can be drawn.
    Draw { report: u32 },
    /// Nothing: the message is done with.
    Done,
}

/// The answer to a request.
#[derive(Debug)]
pub enum Reply {
    RawSize(u32),
    /// How many bytes were copied, or `COPY_FAILED`.
    RawData(u32),
    DeviceType(u32),
    /// `report_count` reports of `report_size` bytes each, one after the other
    /// at the start of `data`.
    Payload { report_count: u32, report_size: u32, data: Vec<u8> },
    PreparsedSize(u32),
    Preparsed,
    ValueCapCount(u16),
    ValueCaps(Vec<ValueCap>),
    /// The value, where the field is present in the report.
    Value(Option<u32>),
    /// The usages, where they could be read.
    Usages(Option<UsageList>),
    Drawn,
}

/// The reports of a message.
pub struct ReportBatch {
    pub report_count: u32,
    pub report_size: u32,
    pub data: Seq<u8>,
}

impl ReportBatch {
    /// There is a report, no report is empty, all of them lie within the data,
    /// and the place of each is a 32-bit number.
    pub open spec fn valid(self) -> bool {
        &&& self.report_count > 0
        &&& self.report_size > 0
        &&& self.report_count * self.report_size <= self.data.len()
        &&& (self.report_count - 1) * self.report_size <= u32::MAX
    }

    /// The bytes of one report.
    pub open spec fn report(self, index: u32) -> Seq<u8> {
        self.data.subrange(index * self.report_size, (index + 1) * self.report_size)
    }
}

/// How far the dialogue has come, and what has been learned.
pub enum State {
    RawSize,
    RawData { size: u32 },
    DeviceType,
    Payload,
    PreparsedSize { batch: ReportBatch },
    Preparsed { batch: ReportBatch, size: u32 },
    ValueCapCount { batch: ReportBatch },
    ValueCaps { batch: ReportBatch, count: u16 },
    /// One report is being read: `values` are the answers for the first fields
    /// and `usages` the answers for the first finger slots.
    Report {
        batch: ReportBatch,
        caps: Seq<ValueCap>,
        report: u32,
        values: Seq<Option<u32>>,
        usages: Seq<Option<UsageList>>,
    },
    Done,
}

impl State {
    /// The state can come about.
    pub open spec fn valid(self) -> bool {
        match self {
            State::PreparsedSize { batch } => batch.valid(),
            State::Preparsed { batch, .. } => batch.valid(),
            State::ValueCapCount { batch } => batch.valid(),
            State::ValueCaps { batch, .. } => batch.valid(),
            State::Report { batch, caps, report, values, usages } => {
                &&& batch.valid()
                &&& report < batch.report_count
                &&& values.len() <= caps.len()
                &&& values.len() < caps.len() ==> usages.len() == 0
                &&& usages.len() <= links_of(fingers(caps, values)).len()
            },
            _ => true,
        }
    }

    /// What is needed next.
    pub open spec fn request(self) -> Request {
        match self {
            State::RawSize => Request::RawSize,
            State::RawData { size } => Request::RawData { size },
            State::DeviceType => Request::DeviceType,
            State::Payload => Request::Payload,
            State::PreparsedSize { .. } => Request::PreparsedSize,
            State::Preparsed { size, .. } => Request::Preparsed { size },
            State::ValueCapCount { .. } => Request::ValueCapCount,
            State::ValueCaps { count, .. } => Request::ValueCaps { count },
            State::Report { caps, report, values, usages, .. } => {
                let links = links_of(fingers(caps, values));
                if values.len() < caps.len() {
                    let cap = caps[values.len() as int];
                    Request::Value {
                        report,
                        usage_page: cap.usage_page,
                        link_collection: cap.link_collection,
                        usage: cap.lookup_usage(),
                    }
                } else if usages.len() < links.len() {
                    Request::Usages {
                        report,
                        usage_page: HID_USAGE_PAGE_DIGITIZER,
                        link_collection: links[usages.len() as int],
                    }
                } else {
                    Request::Draw { report }
                }
            },
            State::Done => Request::Done,
        }
    }

    /// The contacts of the current report can be drawn.
    pub open spec fn drawable(self) -> bool {
        match self {
            State::Report { caps, values, usages, .. } => renderable(
                decoded(caps, values, usages),
                ranges_of(caps),
            ),
            _ => false,
        }
    }

    /// The frame that shows the contacts of the current report.
    pub open spec fn picture(self) -> Seq<char> {
        match self {
            State::Report { caps, values, usages, .. } => frame(
                active(decoded(caps, values, usages)),
                ranges_of(caps),
            ),
            _ => Seq::empty(),
        }
    }

    /// The reply answers what was asked for, and can be what the system says.
    pub open spec fn accepts(self, reply: Reply) -> bool {
        match (self.request(), reply) {
            (Request::RawSize, Reply::RawSize(_)) => true,
            (Request::RawData { .. }, Reply::RawData(_)) => true,
            (Request::DeviceType, Reply::DeviceType(_)) => true,
            (Request::Payload, Reply::Payload { report_count, report_size, data }) => {
                report_count == 0 || report_size == 0 || (ReportBatch {
                    report_count,
                    report_size,
                    data: data@,
                }).valid()
            },
            (Request::PreparsedSize, Reply::PreparsedSize(_)) => true,
            (Request::Preparsed { .. }, Reply::Preparsed) => true,
            (Request::ValueCapCount, Reply::ValueCapCount(_)) => true,
            (Request::ValueCaps { count }, Reply::ValueCaps(caps)) => caps@.len() == count,
            (Request::Value { .. }, Reply::Value(_)) => true,
            (Request::Usages { .. }, Reply::Usages(usages)) => usages matches Some(list)
                ==> list.wf(),
            (Request::Draw { .. }, Reply::Drawn) => true,
            _ => false,
        }
    }

    /// The state after a reply that is accepted.
    pub open spec fn after(self, reply: Reply) -> State {
        match (self, reply) {
            (State::RawSize, Reply::RawSize(size)) => if size == 0 {
                State::Done
            } else {
                State::RawData { size }
            },
            (State::RawData { .. }, Reply::RawData(copied)) => if copied == COPY_FAILED {
                State::Done
            } else {
                State::DeviceType
            },
            (State::DeviceType, Reply::DeviceType(device_type)) => if device_type != RIM_TYPEHID {
                State::Done
            } else {
                State::Payload
            },
            (State::Payload, Reply::Payload { report_count, report_size, data }) => if report_count
                == 0 || report_size == 0 {
                State::Done
            } else {
                State::PreparsedSize { batch: ReportBatch { report_count, report_size, data: data@ } }
            },
            (State::PreparsedSize { batch }, Reply::PreparsedSize(size)) => if size == 0 {
                State::Done
            } else {
                State::Preparsed { batch, size }
            },
            (State::Preparsed { batch, .. }, Reply::Preparsed) => State::ValueCapCount { batch },
            (State::ValueCapCount { batch }, Reply::ValueCapCount(count)) => State::ValueCaps {
                batch,
                count,
            },
            (State::ValueCaps { batch, .. }, Reply::ValueCaps(caps)) => State::Report {
                batch,
                caps: caps@,
                report: 0,
                values: Seq::empty(),
                usages: Seq::empty(),
            },
            (
                State::Report { batch, caps, report, values, usages },
                Reply::Value(value),
            ) => State::Report { batch, caps, report, values: values.push(value), usages },
            (
                State::Report { batch, caps, report, values, usages },
                Reply::Usages(list),
            ) => State::Report { batch, caps, report, values, usages: usages.push(list) },
            (State::Report { batch, caps, report, .. }, Reply::Drawn) => if report + 1
                < batch.report_count {
                State::Report {
                    batch,
                    caps,
                    report: (report + 1) as u32,
                    values: Seq::empty(),
                    usages: Seq::empty(),
                }
            } else {
                State::Done
            },
            _ => self,
        }
    }
}

/// The reports of a message, as bytes.
struct Batch {
    report_count: u32,
    report_size: u32,
    data: Vec<u8>,
}

impl Batch {
    spec fn view(&self) -> ReportBatch {
        ReportBatch {
            report_count: self.report_count,
            report_size: self.report_size,
            data: self.data@,
        }
    }
}

/// The report that is being read.
struct ReportInProgress {
    report: u32,
    /// How many value fields have been answered.
    read: usize,
    contacts: BTreeMap<u16, Contact>,
    /// The finger slots, once all value fields have been answered.
    links: Vec<u16>,
    /// How many finger slots have been answered.
    tipped: usize,
    values: Ghost<Seq<Option<u32>>>,
    usages: Ghost<Seq<Option<UsageList>>>,
}

impl ReportInProgress {
    /// The contacts hold what the answers so far make of them.
    spec fn wf(&self, caps: Seq<ValueCap>) -> bool {
        let found = fingers(caps, self.values@);
        &&& self.read == self.values@.len() <= caps.len()
        &&& self.tipped == self.usages@.len()
        &&& if self.read < caps.len() {
            &&& self.contacts@ == tallied(caps, self.values@)
            &&& self.usages@.len() == 0
        } else {
            &&& self.contacts@ == decoded(caps, self.values@, self.usages@)
            &&& self.links@ == links_of(found)
            &&& self.tipped <= self.links@.len()
        }
    }

    /// A report of which nothing has been read.
    fn start(report: u32, caps: &Vec<ValueCap>) -> (progress: ReportInProgress)
        ensures
            progress.wf(caps@),
            progress.report == report,
            progress.values@ == Seq::<Option<u32>>::empty(),
            progress.usages@ == Seq::<Option<UsageList>>::empty(),
    {
        let contacts: BTreeMap<u16, Contact> = BTreeMap::new();
        proof {
            assert(contacts@ =~= tallied(caps@, Seq::empty()));
        }
        let progress = ReportInProgress {
            report,
            read: 0,
            contacts,
            links: Vec::new(),
            tipped: 0,
            values: Ghost(Seq::empty()),
            usages: Ghost(Seq::empty()),
        };
        progress.finish_values(caps)
    }

    /// Once all value fields have been answered: drops the root collection and
    /// lists the finger slots.
    fn finish_values(self, caps: &Vec<ValueCap>) -> (progress: ReportInProgress)
        requires
            self.read == self.values@.len() <= caps@.len(),
            self.tipped == 0,
            self.usages@.len() == 0,
            self.contacts@ == tallied(caps@, self.values@),
        ensures
            progress.wf(caps@),
            progress.report == self.report,
            progress.values == self.values,
            progress.usages == self.usages,
    {
        broadcast use vstd::laws_cmp::group_laws_cmp;

        if self.read < caps.len() {
            return self;
        }
        let mut progress = self;
        progress.contacts.remove(&0);
        progress.links = sorted_links(&progress.contacts);
        proof {
            lemma_decoded_start(caps@, progress.values@);
            assert(progress.usages@ =~= Seq::empty());
        }
        progress
    }

    /// Takes the answer for the next value field.
    fn take_value(self, caps: &Vec<ValueCap>, value: Option<u32>) -> (progress: ReportInProgress)
        requires
            self.wf(caps@),
            self.read < caps@.len(),
        ensures
            progress.wf(caps@),
            progress.report == self.report,
            progress.values@ == self.values@.push(value),
            progress.usages@ == self.usages@,
    {
        let mut progress = self;
        if let Some(v) = value {
            record_value(&mut progress.contacts, &caps[progress.read], v);
        }
        proof {
            lemma_tallied_step(caps@, self.values@, value);
        }
        assert(progress.read < caps.len());
        progress.read = progress.read + 1;
        progress.values = Ghost(self.values@.push(value));
        progress.finish_values(caps)
    }

    /// Takes the answer for the next finger slot.
    fn take_usages(self, caps: &Vec<ValueCap>, usages: Option<UsageList>) -> (progress:
        ReportInProgress)
        requires
            self.wf(caps@),
            self.read == caps@.len(),
            self.tipped < self.links@.len(),
            usages matches Some(list) ==> list.wf(),
        ensures
            progress.wf(caps@),
            progress.report == self.report,
            progress.values@ == self.values@,
            progress.usages@ == self.usages@.push(usages),
    {
        let mut progress = self;
        let link = progress.links[progress.tipped];
        record_tip(&mut progress.contacts, link, &usages);
        proof {
            lemma_decoded_step(caps@, self.values@, self.usages@, usages);
        }
        assert(progress.tipped < progress.links.len());
        progress.tipped = progress.tipped + 1;
        progress.usages = Ghost(self.usages@.push(usages));
        progress
    }
}

/// How far the dialogue has come.
enum Stage {
    RawSize,
    RawData { size: u32 },
    DeviceType,
    Payload,
    PreparsedSize { batch: Batch },
    Preparsed { batch: Batch, size: u32 },
    ValueCapCount { batch: Batch },
    ValueCaps { batch: Batch, count: u16 },
    Report { batch: Batch, caps: Vec<ValueCap>, ranges: AxisRanges, progress: ReportInProgress },
    Done,
}

/// The decoder of one raw input message.
pub struct Decoder {
    stage: Stage,
}

impl Decoder {
    /// How far the dialogue has come, and what has been learned.
    pub closed spec fn view(&self) -> State {
        match self.stage {
            Stage::RawSize => State::RawSize,
            Stage::RawData { size } => State::RawData { size },
            Stage::DeviceType => State::DeviceType,
            Stage::Payload => State::Payload,
            Stage::PreparsedSize { batch } => State::PreparsedSize { batch: batch@ },
            Stage::Preparsed { batch, size } => State::Preparsed { batch: batch@, size },
            Stage::ValueCapCount { batch } => State::ValueCapCount { batch: batch@ },
            Stage::ValueCaps { batch, count } => State::ValueCaps { batch: batch@, count },
            Stage::Report { batch, caps, progress, .. } => State::Report {
                batch: batch@,
                caps: caps@,
                report: progress.report,
                values: progress.values@,
                usages: progress.usages@,
            },
            Stage::Done => State::Done,
        }
    }

    /// The state can come about, and what is kept for the current report
    /// agrees with it.
    pub closed spec fn wf(&self) -> bool {
        &&& self@.valid()
        &&& self.stage matches Stage::Report { caps, ranges, progress, .. } ==> {
            &&& progress.wf(caps@)
            &&& ranges == ranges_of(caps@)
        }
    }

    /// A decoder that has learned nothing yet.
    pub fn new() -> (decoder: Decoder)
        ensures
            decoder.wf(),
            decoder@.valid(),
            decoder@ == State::RawSize,
    {
        Decoder { stage: Stage::RawSize }
    }

    /// What the decoder needs next.
    pub fn request(&self) -> (request: Request)
        requires
            self.wf(),
        ensures
            request == self@.request(),
    {
        match &self.stage {
            Stage::RawSize => Request::RawSize,
            Stage::RawData { size } => Request::RawData { size: *size },
            Stage::DeviceType => Request::DeviceType,
            Stage::Payload => Request::Payload,
            Stage::PreparsedSize { .. } => Request::PreparsedSize,
            Stage::Preparsed { size, .. } => Request::Preparsed { size: *size },
            Stage::ValueCapCount { .. } => Request::ValueCapCount,
            Stage::ValueCaps { count, .. } => Request::ValueCaps { count: *count },
            Stage::Report { caps, progress, .. } => {
                let report = progress.report;
                if progress.read < caps.len() {
                    let cap = &caps[progress.read];
                    Request::Value {
                        report,
                        usage_page: cap.usage_page,
                        link_collection: cap.link_collection,
                        usage: cap.usage_code(),
                    }
                } else if progress.tipped < progress.links.len() {
                    Request::Usages {
                        report,
                        usage_page: HID_USAGE_PAGE_DIGITIZER,
                        link_collection: progress.links[progress.tipped],
                    }
                } else {
                    Request::Draw { report }
                }
            },
            Stage::Done => Request::Done,
        }
    }

    /// Whether a reply answers what was asked for and can be what the system
    /// says.
    pub fn accepts(&self, reply: &Reply) -> (accepted: bool)
        requires
            self.wf(),
        ensures
            accepted == self@.accepts(*reply),
    {
        match (self.request(), reply) {
            (Request::RawSize, Reply::RawSize(_)) => true,
            (Request::RawData { .. }, Reply::RawData(_)) => true,
            (Request::DeviceType, Reply::DeviceType(_)) => true,
            (Request::Payload, Reply::Payload { report_count, report_size, data }) => {
                let (count, size) = (*report_count as u64, *report_size as u64);
                if count == 0 || size == 0 {
                    true
                } else {
                    proof {
                        assert(count * size <= 0xffff_ffff * 0xffff_ffff) by (nonlinear_arith)
                            requires
                                count <= 0xffff_ffff,
                                size <= 0xffff_ffff,
                        ;
                        assert((count - 1) * size <= count * size) by (nonlinear_arith)
                            requires
                                count >= 1,
                        ;
                    }
                    count * size <= data.len() as u64 && (count - 1) * size <= u32::MAX as u64
                }
            },
            (Request::PreparsedSize, Reply::PreparsedSize(_)) => true,
            (Request::Preparsed { .. }, Reply::Preparsed) => true,
            (Request::ValueCapCount, Reply::ValueCapCount(_)) => true,
            (Request::ValueCaps { count }, Reply::ValueCaps(caps)) => caps.len() == count as usize,
            (Request::Value { .. }, Reply::Value(_)) => true,
            (Request::Usages { .. }, Reply::Usages(usages)) => match usages {
                Some(list) => list.len <= 8,
                None => true,
            },
            (Request::Draw { .. }, Reply::Drawn) => true,
            _ => false,
        }
    }

    /// Takes the answer to the current request.
    pub fn advance(self, reply: Reply) -> (decoder: Decoder)
        requires
            self.wf(),
            self@.accepts(reply),
        ensures
            decoder.wf(),
            decoder@.valid(),
            decoder@ == self@.after(reply),
    {
        let stage = match (self.stage, reply) {
            (Stage::RawSize, Reply::RawSize(size)) => if size == 0 {
                Stage::Done
            } else {
                Stage::RawData { size }
            },
            (Stage::RawData { .. }, Reply::RawData(copied)) => if copied == COPY_FAILED {
                Stage::Done
            } else {
                Stage::DeviceType
            },
            (Stage::DeviceType, Reply::DeviceType(device_type)) => if device_type != RIM_TYPEHID {
                Stage::Done
            } else {
                Stage::Payload
            },
            (Stage::Payload, Reply::Payload { report_count, report_size, data }) => if report_count
                == 0 || report_size == 0 {
                Stage::Done
            } else {
                Stage::PreparsedSize { batch: Batch { report_count, report_size, data } }
            },
            (Stage::PreparsedSize { batch }, Reply::PreparsedSize(size)) => if size == 0 {
                Stage::Done
            } else {
                Stage::Preparsed { batch, size }
            },
            (Stage::Preparsed { batch, .. }, Reply::Preparsed) => Stage::ValueCapCount { batch },
            (Stage::ValueCapCount { batch }, Reply::ValueCapCount(count)) => Stage::ValueCaps {
                batch,
                count,
            },
            (Stage::ValueCaps { batch, .. }, Reply::ValueCaps(caps)) => {
                let ranges = axis_ranges(&caps);
                let progress = ReportInProgress::start(0, &caps);
                Stage::Report { batch, caps, ranges, progress }
            },
            (Stage::Report { batch, caps, ranges, progress }, Reply::Value(value)) => {
                let progress = progress.take_value(&caps, value);
                Stage::Report { batch, caps, ranges, progress }
            },
            (Stage::Report { batch, caps, ranges, progress }, Reply::Usages(usages)) => {
                let progress = progress.take_usages(&caps, usages);
                Stage::Report { batch, caps, ranges, progress }
            },
            (Stage::Report { batch, caps, ranges, progress }, Reply::Drawn) => {
                let next = progress.report + 1;
                if next < batch.report_count {
                    let progress = ReportInProgress::start(next, &caps);
                    Stage::Report { batch, caps, ranges, progress }
                } else {
                    Stage::Done
                }
            },
            (stage, _) => stage,
        };
        Decoder { stage }
    }

    /// The bytes of the current report, while there is one.
    pub fn report_bytes(&self) -> (bytes: Option<Vec<u8>>)
        requires
            self.wf(),
        ensures
            match (bytes, self@) {
                (Some(bytes), State::Report { batch, report, .. }) => {
                    &&& bytes@ == batch.report(report)
                    &&& bytes@.len() == batch.report_size
                    &&& forall|i: int|
                        0 <= i < batch.report_size ==> #[trigger] bytes@[i] == batch.data[report
                            * batch.report_size + i]
                },
                (Some(_), _) => false,
                (None, state) => !(state is Report),
            },
    {
        if let Stage::Report { batch, progress, .. } = &self.stage {
            let ghost index = progress.report;
            proof {
                lemma_report_place(batch@, index);
            }
            let start: u32 = progress.report * batch.report_size;
            let mut bytes: Vec<u8> = Vec::new();
            let mut i: u32 = 0;
            while i < batch.report_size
                invariant
                    i <= batch.report_size,
                    start == index * batch.report_size,
                    start + batch.report_size <= batch.data.len(),
                    bytes@ == batch.data@.subrange(start as int, start + i),
                decreases batch.report_size - i,
            {
                bytes.push(batch.data[start as usize + i as usize]);
                assert(bytes@ =~= batch.data@.subrange(start as int, start + i + 1));
                i += 1;
            }
            assert((index + 1) * batch.report_size == start + batch.report_size)
                by (nonlinear_arith)
                requires
                    start == index * batch.report_size,
            ;
            Some(bytes)
        } else {
            None
        }
    }

    /// The contacts of the current report, once they are complete.
    pub fn contacts(&self) -> (contacts: Option<&BTreeMap<u16, Contact>>)
        requires
            self.wf(),
        ensures
            contacts is Some == self@.request() is Draw,
            match (contacts, self@) {
                (Some(contacts), State::Report { caps, values, usages, .. }) => contacts@
                    == decoded(caps, values, usages),
                (Some(_), _) => false,
                (None, _) => true,
            },
    {
        match &self.stage {
            Stage::Report { caps, progress, .. } => if progress.read == caps.len()
                && progress.tipped == progress.links.len() {
                Some(&progress.contacts)
            } else {
                None
            },
            _ => None,
        }
    }

    /// The raw ranges of the device's two axes, once its fields are known.
    pub fn ranges(&self) -> (ranges: Option<AxisRanges>)
        requires
            self.wf(),
        ensures
            match (ranges, self@) {
                (Some(ranges), State::Report { caps, .. }) => ranges == ranges_of(caps),
                (Some(_), _) => false,
                (None, state) => !(state is Report),
            },
    {
        match &self.stage {
            Stage::Report { ranges, .. } => Some(*ranges),
            _ => None,
        }
    }
}

impl Decoder {
    /// The frame that shows the current report, once its contacts are complete.
    /// There is none where the device's numbers are too far apart for 32-bit
    /// differences.
    pub fn frame(&self) -> (text: Option<String>)
        requires
            self.wf(),
            self@.request() is Draw,
        ensures
            self@ is Report,
            match text {
                Some(text) => self@.drawable() && text@ == self@.picture(),
                None => !self@.drawable(),
            },
    {
        match &self.stage {
            Stage::Report { ranges, progress, .. } => {
                let (x_min, x_max) = (ranges.x_min, ranges.x_max);
                let (y_min, y_max) = (ranges.y_min, ranges.y_max);
                if can_render(&progress.contacts, x_min, x_max, y_min, y_max) {
                    Some(render_grid(&progress.contacts, x_min, x_max, y_min, y_max))
                } else {
                    None
                }
            },
            _ => None,
        }
    }
}

/// A report lies within the data, and its place is a 32-bit number.
pub proof fn lemma_report_place(batch: ReportBatch, index: u32)
    requires
        batch.valid(),
        index < batch.report_count,
    ensures
        0 <= index * batch.report_size <= u32::MAX,
        index * batch.report_size + batch.report_size <= batch.data.len(),
{
    let (count, size) = (batch.report_count, batch.report_size);
    assert(0 <= index * size <= (count - 1) * size && index * size + size <= count * size)
        by (nonlinear_arith)
        requires
            index < count,
            size >= 0,
    ;
}

} // verus!
