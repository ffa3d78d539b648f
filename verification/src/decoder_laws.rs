//! What holds of every dialogue with the decoder.

use vstd::prelude::*;

use crate::contact::{
    decoded, fingers, law_a_fingers_tip_comes_from_its_own_usages, lemma_decoded_step,
    lemma_fingers_listed, lemma_links_below_listed, links_of, lists_fingers, UsageList,
};
use crate::debug_render::{active, frame, renderable};
use crate::decoder::{
    lemma_report_place, Reply, ReportBatch, Request, State, COPY_FAILED, RIM_TYPEHID,
};
use crate::hid::{ranges_of, ValueCap};

verus! {

/// The state after a sequence of replies.
pub open spec fn run(state: State, replies: Seq<Reply>) -> State
    decreases replies.len(),
{
    if replies.len() == 0 {
        state
    } else {
        run(state, replies.drop_last()).after(replies.last())
    }
}

/// Each of the replies is accepted in its turn.
pub open spec fn all_accepted(state: State, replies: Seq<Reply>) -> bool
    decreases replies.len(),
{
    replies.len() == 0 || (all_accepted(state, replies.drop_last()) && run(
        state,
        replies.drop_last(),
    ).accepts(replies.last()))
}

/// What is written to the terminal in the course of the replies: the frame of a
/// report each time that one is drawn.
pub open spec fn output(state: State, replies: Seq<Reply>) -> Seq<char>
    decreases replies.len(),
{
    if replies.len() == 0 {
        Seq::empty()
    } else {
        let before = output(state, replies.drop_last());
        if replies.last() is Drawn {
            before + run(state, replies.drop_last()).picture()
        } else {
            before
        }
    }
}

/// The replies that answer for the value fields of a report.
pub open spec fn value_replies(values: Seq<Option<u32>>) -> Seq<Reply> {
    values.map_values(|value: Option<u32>| Reply::Value(value))
}

/// The replies that answer for the finger slots of a report.
pub open spec fn usage_replies(usages: Seq<Option<UsageList>>) -> Seq<Reply> {
    usages.map_values(|list: Option<UsageList>| Reply::Usages(list))
}

/// A report is read to its end: once every value field and then every finger
/// slot that turned up has been answered, whatever the answers are, the next
/// thing asked for is to draw the report.
pub proof fn law_a_report_is_read_to_its_frame(
    batch: ReportBatch,
    caps: Seq<ValueCap>,
    report: u32,
    values: Seq<Option<u32>>,
    usages: Seq<Option<UsageList>>,
)
    requires
        batch.valid(),
        report < batch.report_count,
        values.len() == caps.len(),
        usages.len() == links_of(fingers(caps, values)).len(),
        forall|i: int|
            0 <= i < usages.len() ==> ((#[trigger] usages[i]) matches Some(list) ==> list.wf()),
    ensures
        ({
            let start = State::Report {
                batch,
                caps,
                report,
                values: Seq::empty(),
                usages: Seq::empty(),
            };
            let replies = value_replies(values) + usage_replies(usages);
            let end = State::Report { batch, caps, report, values, usages };
            &&& all_accepted(start, replies)
            &&& run(start, replies) == end
            &&& end.request() == (Request::Draw { report })
        }),
{
    lemma_run_values(batch, caps, report, values);
    lemma_run_usages(batch, caps, report, values, usages);
}

/// Answering for value fields collects the answers.
proof fn lemma_run_values(
    batch: ReportBatch,
    caps: Seq<ValueCap>,
    report: u32,
    values: Seq<Option<u32>>,
)
    requires
        values.len() <= caps.len(),
    ensures
        ({
            let start = State::Report {
                batch,
                caps,
                report,
                values: Seq::empty(),
                usages: Seq::empty(),
            };
            &&& all_accepted(start, value_replies(values))
            &&& run(start, value_replies(values)) == (State::Report {
                batch,
                caps,
                report,
                values,
                usages: Seq::empty(),
            })
        }),
    decreases values.len(),
{
    if values.len() == 0 {
        assert(values =~= Seq::empty());
    } else {
        lemma_run_values(batch, caps, report, values.drop_last());
        assert(value_replies(values).drop_last() =~= value_replies(values.drop_last()));
        assert(values.drop_last().push(values.last()) =~= values);
    }
}

/// Answering for finger slots collects the answers.
proof fn lemma_run_usages(
    batch: ReportBatch,
    caps: Seq<ValueCap>,
    report: u32,
    values: Seq<Option<u32>>,
    usages: Seq<Option<UsageList>>,
)
    requires
        values.len() == caps.len(),
        usages.len() <= links_of(fingers(caps, values)).len(),
        forall|i: int|
            0 <= i < usages.len() ==> ((#[trigger] usages[i]) matches Some(list) ==> list.wf()),
    ensures
        ({
            let start = State::Report {
                batch,
                caps,
                report,
                values: Seq::empty(),
                usages: Seq::empty(),
            };
            let replies = value_replies(values) + usage_replies(usages);
            &&& all_accepted(start, replies)
            &&& run(start, replies) == (State::Report { batch, caps, report, values, usages })
        }),
    decreases usages.len(),
{
    let replies = value_replies(values) + usage_replies(usages);
    lemma_run_values(batch, caps, report, values);
    if usages.len() == 0 {
        assert(usages =~= Seq::empty());
        assert(replies =~= value_replies(values));
    } else {
        lemma_run_usages(batch, caps, report, values, usages.drop_last());
        assert(replies.drop_last() =~= value_replies(values) + usage_replies(usages.drop_last()));
        assert(usages.drop_last().push(usages.last()) =~= usages);
        assert(usages[usages.len() - 1] == usages.last());
    }
}

/// A dialogue can be cut in two anywhere: what comes after the cut depends on
/// the state at the cut alone.
pub proof fn law_a_dialogue_can_be_cut(state: State, first: Seq<Reply>, second: Seq<Reply>)
    ensures
        run(state, first + second) == run(run(state, first), second),
        all_accepted(state, first + second) == (all_accepted(state, first) && all_accepted(
            run(state, first),
            second,
        )),
        output(state, first + second) == output(state, first) + output(run(state, first), second),
    decreases second.len(),
{
    if second.len() == 0 {
        assert(first + second =~= first);
        assert(output(state, first) + output(run(state, first), second) =~= output(state, first));
    } else {
        assert((first + second).drop_last() =~= first + second.drop_last());
        law_a_dialogue_can_be_cut(state, first, second.drop_last());
        assert(output(state, first + second) =~= output(state, first) + output(
            run(state, first),
            second,
        ));
    }
}

/// Everything that the system answers for one report.
pub struct ReportAnswers {
    pub values: Seq<Option<u32>>,
    pub usages: Seq<Option<UsageList>>,
}

impl ReportAnswers {
    /// There is an answer for each value field and for each finger slot.
    pub open spec fn complete(self, caps: Seq<ValueCap>) -> bool {
        &&& self.values.len() == caps.len()
        &&& self.usages.len() == links_of(fingers(caps, self.values)).len()
        &&& forall|i: int|
            0 <= i < self.usages.len() ==> ((#[trigger] self.usages[i]) matches Some(list)
                ==> list.wf())
    }

    /// The replies for the report, up to the drawing of its frame.
    pub open spec fn replies(self) -> Seq<Reply> {
        (value_replies(self.values) + usage_replies(self.usages)).push(Reply::Drawn)
    }
}

/// The replies for several reports, one after the other.
pub open spec fn all_replies(answers: Seq<ReportAnswers>) -> Seq<Reply>
    decreases answers.len(),
{
    if answers.len() == 0 {
        Seq::empty()
    } else {
        all_replies(answers.drop_last()) + answers.last().replies()
    }
}

/// The state in which a report is about to be read, or the message is done
/// with where there is no such report.
pub open spec fn before_report(batch: ReportBatch, caps: Seq<ValueCap>, report: nat) -> State {
    if report < batch.report_count {
        State::Report {
            batch,
            caps,
            report: report as u32,
            values: Seq::empty(),
            usages: Seq::empty(),
        }
    } else {
        State::Done
    }
}

/// The frame of a report with these answers.
pub open spec fn report_frame(caps: Seq<ValueCap>, answers: ReportAnswers) -> Seq<char> {
    frame(active(decoded(caps, answers.values, answers.usages)), ranges_of(caps))
}

/// The frames of several reports, one after the other.
pub open spec fn report_frames(caps: Seq<ValueCap>, answers: Seq<ReportAnswers>) -> Seq<char>
    decreases answers.len(),
{
    if answers.len() == 0 {
        Seq::empty()
    } else {
        report_frames(caps, answers.drop_last()) + report_frame(caps, answers.last())
    }
}

/// Replies that draw nothing write nothing.
proof fn lemma_output_without_drawing(state: State, replies: Seq<Reply>)
    requires
        forall|i: int| 0 <= i < replies.len() ==> !((#[trigger] replies[i]) is Drawn),
    ensures
        output(state, replies) == Seq::<char>::empty(),
    decreases replies.len(),
{
    if replies.len() > 0 {
        assert forall|i: int| 0 <= i < replies.drop_last().len() implies !((
        #[trigger] replies.drop_last()[i]) is Drawn) by {
            assert(!(replies[i] is Drawn));
        }
        assert(!(replies[replies.len() - 1] is Drawn));
        lemma_output_without_drawing(state, replies.drop_last());
    }
}

/// One report is read, its frame is written, and the next report is next.
#[verifier::spinoff_prover]
proof fn lemma_one_report(
    batch: ReportBatch,
    caps: Seq<ValueCap>,
    report: nat,
    answers: ReportAnswers,
)
    requires
        batch.valid(),
        report < batch.report_count,
        answers.complete(caps),
    ensures
        all_accepted(before_report(batch, caps, report), answers.replies()),
        run(before_report(batch, caps, report), answers.replies()) == before_report(
            batch,
            caps,
            report + 1,
        ),
        output(before_report(batch, caps, report), answers.replies()) == report_frame(
            caps,
            answers,
        ),
{
    let start = before_report(batch, caps, report);
    let read = value_replies(answers.values) + usage_replies(answers.usages);
    law_a_report_is_read_to_its_frame(
        batch,
        caps,
        report as u32,
        answers.values,
        answers.usages,
    );
    lemma_output_without_drawing(start, read);
    assert(answers.replies().drop_last() =~= read);
    assert(answers.replies().last() == Reply::Drawn);
    assert(run(start, answers.replies()) == run(start, read).after(Reply::Drawn));
    assert(output(start, answers.replies()) =~= report_frame(caps, answers));
}

/// The reports of a message are read and drawn in turn, each once, and the
/// message is done with after the last one. What is written is the frame of
/// each report, one after the other.
#[verifier::spinoff_prover]
pub proof fn law_every_report_is_drawn_once(
    batch: ReportBatch,
    caps: Seq<ValueCap>,
    answers: Seq<ReportAnswers>,
)
    requires
        batch.valid(),
        answers.len() <= batch.report_count,
        forall|i: int| 0 <= i < answers.len() ==> (#[trigger] answers[i]).complete(caps),
    ensures
        all_accepted(before_report(batch, caps, 0), all_replies(answers)),
        run(before_report(batch, caps, 0), all_replies(answers)) == before_report(
            batch,
            caps,
            answers.len(),
        ),
        output(before_report(batch, caps, 0), all_replies(answers)) == report_frames(
            caps,
            answers,
        ),
    decreases answers.len(),
{
    let start = before_report(batch, caps, 0);
    if answers.len() > 0 {
        let last = answers[answers.len() - 1];
        assert forall|i: int| 0 <= i < answers.drop_last().len() implies (
        #[trigger] answers.drop_last()[i]).complete(caps) by {
            assert(answers[i].complete(caps));
        }
        law_every_report_is_drawn_once(batch, caps, answers.drop_last());
        lemma_one_report(batch, caps, (answers.len() - 1) as nat, last);
        law_a_dialogue_can_be_cut(start, all_replies(answers.drop_last()), last.replies());
    }
}

/// A batch of reports writes what its reports write when each comes in a
/// message of its own.
pub proof fn law_a_batch_writes_what_its_reports_write(
    batch: ReportBatch,
    single: ReportBatch,
    caps: Seq<ValueCap>,
    answers: Seq<ReportAnswers>,
    last: ReportAnswers,
)
    requires
        batch.valid(),
        single.valid(),
        answers.len() + 1 <= batch.report_count,
        forall|i: int| 0 <= i < answers.len() ==> (#[trigger] answers[i]).complete(caps),
        last.complete(caps),
    ensures
        output(before_report(batch, caps, 0), all_replies(answers.push(last))) == output(
            before_report(batch, caps, 0),
            all_replies(answers),
        ) + output(before_report(single, caps, 0), last.replies()),
{
    let all = answers.push(last);
    assert forall|i: int| 0 <= i < all.len() implies (#[trigger] all[i]).complete(caps) by {
        if i < answers.len() {
            assert(answers[i].complete(caps));
        }
    }
    law_every_report_is_drawn_once(batch, caps, answers);
    law_every_report_is_drawn_once(batch, caps, all);
    lemma_one_report(single, caps, 0, last);
    assert(all.drop_last() =~= answers);
}

/// A message that has content, could be copied, comes from a HID device, holds
/// reports and has a descriptor is read up to its first report.
pub proof fn law_a_good_message_is_read(
    size: u32,
    copied: u32,
    report_count: u32,
    report_size: u32,
    data: Vec<u8>,
    preparsed_size: u32,
    caps: Vec<ValueCap>,
)
    requires
        size != 0,
        copied != COPY_FAILED,
        (ReportBatch { report_count, report_size, data: data@ }).valid(),
        preparsed_size != 0,
        caps@.len() <= u16::MAX,
    ensures
        ({
            let batch = ReportBatch { report_count, report_size, data: data@ };
            let replies = seq![
                Reply::RawSize(size),
                Reply::RawData(copied),
                Reply::DeviceType(RIM_TYPEHID),
                Reply::Payload { report_count, report_size, data },
                Reply::PreparsedSize(preparsed_size),
                Reply::Preparsed,
                Reply::ValueCapCount(caps@.len() as u16),
                Reply::ValueCaps(caps),
            ];
            &&& all_accepted(State::RawSize, replies)
            &&& run(State::RawSize, replies) == before_report(batch, caps@, 0)
        }),
{
    let replies = seq![
        Reply::RawSize(size),
        Reply::RawData(copied),
        Reply::DeviceType(RIM_TYPEHID),
        Reply::Payload { report_count, report_size, data },
        Reply::PreparsedSize(preparsed_size),
        Reply::Preparsed,
        Reply::ValueCapCount(caps@.len() as u16),
        Reply::ValueCaps(caps),
    ];
    reveal_with_fuel(run, 9);
    reveal_with_fuel(all_accepted, 9);
    assert forall|n: int| 0 < n <= replies.len() implies #[trigger] replies.take(n).drop_last()
        == replies.take(n - 1) by {
        assert(replies.take(n).drop_last() =~= replies.take(n - 1));
    }
    assert(replies.take(8) =~= replies);
}

/// A message that is empty, could not be copied, does not come from a HID
/// device, holds no reports or has no descriptor is dropped: the decoder asks
/// for nothing more, so nothing is drawn.
pub proof fn law_a_bad_message_is_dropped(
    size: u32,
    device_type: u32,
    report_count: u32,
    report_size: u32,
    data: Vec<u8>,
    batch: ReportBatch,
)
    requires
        device_type != RIM_TYPEHID,
        report_count == 0 || report_size == 0,
    ensures
        State::RawSize.after(Reply::RawSize(0)) == State::Done,
        (State::RawData { size }).after(Reply::RawData(COPY_FAILED)) == State::Done,
        State::DeviceType.after(Reply::DeviceType(device_type)) == State::Done,
        State::Payload.after(Reply::Payload { report_count, report_size, data }) == State::Done,
        (State::PreparsedSize { batch }).after(Reply::PreparsedSize(0)) == State::Done,
        State::Done.request() == Request::Done,
        forall|reply: Reply| !(#[trigger] State::Done.accepts(reply)),
{
}

impl State {
    /// How many kinds of answers are still to come before the reports.
    pub open spec fn steps_before_reports(self) -> nat {
        match self {
            State::RawSize => 9,
            State::RawData { .. } => 8,
            State::DeviceType => 7,
            State::Payload => 6,
            State::PreparsedSize { .. } => 5,
            State::Preparsed { .. } => 4,
            State::ValueCapCount { .. } => 3,
            State::ValueCaps { .. } => 2,
            State::Report { .. } => 1,
            State::Done => 0,
        }
    }

    /// How many reports are not drawn yet.
    pub open spec fn reports_left(self) -> int {
        match self {
            State::Report { batch, report, .. } => batch.report_count - report,
            _ => 0,
        }
    }

    /// How many answers are still to come for the current report, at most.
    pub open spec fn answers_left(self) -> int {
        match self {
            State::Report { caps, values, usages, .. } => caps.len() - values.len() + 0x1_0000
                - usages.len(),
            _ => 0,
        }
    }
}

/// The dialogue ends: every accepted reply brings it nearer to its end.
pub proof fn law_the_dialogue_ends(state: State, reply: Reply)
    requires
        state.valid(),
        state.accepts(reply),
    ensures
        ({
            let next = state.after(reply);
            decreases_to!(
                state.steps_before_reports(), state.reports_left(), state.answers_left()
                => next.steps_before_reports(), next.reports_left(), next.answers_left())
        }),
{
    if let State::Report { caps, values, .. } = state {
        lemma_links_below_listed(fingers(caps, values), 0x1_0000);
    }
}

/// The reports of a message lie side by side from the start of its data, each
/// `report_size` bytes long.
pub proof fn law_reports_lie_side_by_side(batch: ReportBatch, index: u32, at: int)
    requires
        batch.valid(),
        index < batch.report_count,
        0 <= at < batch.report_size,
    ensures
        batch.report(index).len() == batch.report_size,
        batch.report(index)[at] == batch.data[index * batch.report_size + at],
{
    lemma_report_place(batch, index);
    assert((index + 1) * batch.report_size == index * batch.report_size + batch.report_size)
        by (nonlinear_arith);
}

/// While value fields of a report are unanswered, the next of them is asked for,
/// by its own page, slot and usage. Then the button usages of the finger slots
/// are asked for on the digitizer page, the n-th answer that of the n-th slot in
/// ascending order, and at last the report is to be drawn.
pub proof fn law_fields_and_slots_are_asked_for_in_turn(
    batch: ReportBatch,
    caps: Seq<ValueCap>,
    report: u32,
    values: Seq<Option<u32>>,
    usages: Seq<Option<UsageList>>,
    links: Seq<u16>,
)
    requires
        values.len() <= caps.len(),
        lists_fingers(links, caps, values),
    ensures
        ({
            let state = State::Report { batch, caps, report, values, usages };
            let cap = caps[values.len() as int];
            if values.len() < caps.len() {
                state.request() == (Request::Value {
                    report,
                    usage_page: cap.usage_page,
                    link_collection: cap.link_collection,
                    usage: cap.lookup_usage(),
                })
            } else if usages.len() < links.len() {
                state.request() == (Request::Usages {
                    report,
                    usage_page: 0x0D,
                    link_collection: links[usages.len() as int],
                })
            } else {
                state.request() == (Request::Draw { report })
            }
        }),
{
    lemma_fingers_listed(links, caps, values);
}

/// In the course of a report the button usages of each finger slot are asked for
/// exactly once, and those of no other slot.
pub proof fn law_every_finger_slot_is_asked_for_once(
    batch: ReportBatch,
    caps: Seq<ValueCap>,
    report: u32,
    values: Seq<Option<u32>>,
    usages: Seq<Option<UsageList>>,
    links: Seq<u16>,
    link: u16,
)
    requires
        values.len() == caps.len(),
        lists_fingers(links, caps, values),
        usages.len() == links.len(),
    ensures
        (link != 0 && exists|i: int|
            0 <= i < values.len() && (#[trigger] caps[i]).link_collection == link && values[i]
                is Some) <==> exists|n: int|
            0 <= n <= usages.len() && (State::Report {
                batch,
                caps,
                report,
                values,
                usages: #[trigger] usages.take(n),
            }).request() == (Request::Usages { report, usage_page: 0x0D, link_collection: link }),
        forall|n: int, m: int|
            0 <= n <= usages.len() && 0 <= m <= usages.len() && (State::Report {
                batch,
                caps,
                report,
                values,
                usages: #[trigger] usages.take(n),
            }).request() == (Request::Usages { report, usage_page: 0x0D, link_collection: link })
                && (State::Report {
                batch,
                caps,
                report,
                values,
                usages: #[trigger] usages.take(m),
            }).request() == (Request::Usages { report, usage_page: 0x0D, link_collection: link })
                ==> n == m,
{
    assert forall|n: int| 0 <= n <= usages.len() implies ((State::Report {
        batch,
        caps,
        report,
        values,
        usages: #[trigger] usages.take(n),
    }).request() == (Request::Usages { report, usage_page: 0x0D, link_collection: link }) <==> n
        < links.len() && links[n] == link) by {
        law_fields_and_slots_are_asked_for_in_turn(
            batch,
            caps,
            report,
            values,
            usages.take(n),
            links,
        );
    }
    assert(links.contains(link) <==> link != 0 && exists|i: int|
        0 <= i < values.len() && (#[trigger] caps[i]).link_collection == link && values[i]
            is Some);
    if links.contains(link) {
        let n = choose|n: int| 0 <= n < links.len() && links[n] == link;
        assert((State::Report { batch, caps, report, values, usages: usages.take(n) }).request()
            == (Request::Usages { report, usage_page: 0x0D, link_collection: link }));
    }
}

/// The answer with the button usages of a slot sets the tip switch of the slot
/// that they were asked for, and changes nothing else: not its position and
/// number, and nothing of any other contact.
pub proof fn law_usages_set_the_tip_of_the_slot_that_was_asked_for(
    batch: ReportBatch,
    caps: Seq<ValueCap>,
    report: u32,
    values: Seq<Option<u32>>,
    usages: Seq<Option<UsageList>>,
    page: u16,
    link: u16,
    reply: Option<UsageList>,
)
    requires
        values.len() <= caps.len(),
        (State::Report { batch, caps, report, values, usages }).request() == (Request::Usages {
            report,
            usage_page: page,
            link_collection: link,
        }),
    ensures
        (State::Report { batch, caps, report, values, usages }).after(Reply::Usages(reply)) == (
        State::Report { batch, caps, report, values, usages: usages.push(reply) }),
        ({
            let before = decoded(caps, values, usages);
            let after = decoded(caps, values, usages.push(reply));
            &&& before.contains_key(link)
            &&& after.dom() == before.dom()
            &&& forall|other: u16|
                other != link && before.contains_key(other) ==> #[trigger] after[other]
                    == before[other]
            &&& after[link].x == before[link].x
            &&& after[link].y == before[link].y
            &&& after[link].id == before[link].id
            &&& match reply {
                Some(list) => {
                    &&& after[link].tip == 0 || after[link].tip == 1
                    &&& after[link].tip == 1 <==> exists|i: int|
                        0 <= i < list.len && #[trigger] list.slots@[i] == 0x42
                },
                None => after[link].tip == before[link].tip,
            }
        }),
{
    let links = links_of(fingers(caps, values));
    lemma_fingers_listed(links, caps, values);
    law_fields_and_slots_are_asked_for_in_turn(batch, caps, report, values, usages, links);
    let at = usages.len() as int;
    law_a_fingers_tip_comes_from_its_own_usages(caps, values, usages, links, at);
    law_a_fingers_tip_comes_from_its_own_usages(caps, values, usages.push(reply), links, at);
    lemma_decoded_step(caps, values, usages, reply);
    assert(decoded(caps, values, usages.push(reply)).dom() =~= decoded(caps, values, usages).dom());
}

/// What is learned from an answer is passed on as it is: the sizes and counts
/// that the system names are the ones asked for next, and the reports and the
/// fields are kept.
pub proof fn law_answers_are_passed_on(
    size: u32,
    copied: u32,
    device_type: u32,
    report_count: u32,
    report_size: u32,
    data: Vec<u8>,
    batch: ReportBatch,
    count: u16,
    caps: Vec<ValueCap>,
)
    ensures
        State::RawSize.request() == Request::RawSize,
        State::RawSize.after(Reply::RawSize(size)) == if size == 0 {
            State::Done
        } else {
            State::RawData { size }
        },
        (State::RawData { size }).request() == (Request::RawData { size }),
        (State::RawData { size }).after(Reply::RawData(copied)) == if copied == 0xffff_ffff {
            State::Done
        } else {
            State::DeviceType
        },
        State::DeviceType.request() == Request::DeviceType,
        State::DeviceType.after(Reply::DeviceType(device_type)) == if device_type == 2 {
            State::Payload
        } else {
            State::Done
        },
        State::Payload.request() == Request::Payload,
        State::Payload.after(Reply::Payload { report_count, report_size, data }) == if report_count
            == 0 || report_size == 0 {
            State::Done
        } else {
            State::PreparsedSize { batch: ReportBatch { report_count, report_size, data: data@ } }
        },
        (State::PreparsedSize { batch }).request() == Request::PreparsedSize,
        (State::PreparsedSize { batch }).after(Reply::PreparsedSize(size)) == if size == 0 {
            State::Done
        } else {
            State::Preparsed { batch, size }
        },
        (State::Preparsed { batch, size }).request() == (Request::Preparsed { size }),
        (State::Preparsed { batch, size }).after(Reply::Preparsed) == (State::ValueCapCount {
            batch,
        }),
        (State::ValueCapCount { batch }).request() == Request::ValueCapCount,
        (State::ValueCapCount { batch }).after(Reply::ValueCapCount(count)) == (State::ValueCaps {
            batch,
            count,
        }),
        (State::ValueCaps { batch, count }).request() == (Request::ValueCaps { count }),
        (State::ValueCaps { batch, count }).after(Reply::ValueCaps(caps)) == (State::Report {
            batch,
            caps: caps@,
            report: 0,
            values: Seq::empty(),
            usages: Seq::empty(),
        }),
        State::Done.request() == Request::Done,
{
}

/// Within a report every answer is added behind those before it. After a report
/// was drawn the next one is read from its start, with the same fields, and the
/// message is done with after the last.
pub proof fn law_reports_follow_each_other(
    batch: ReportBatch,
    caps: Seq<ValueCap>,
    report: u32,
    values: Seq<Option<u32>>,
    usages: Seq<Option<UsageList>>,
    value: Option<u32>,
    list: Option<UsageList>,
)
    ensures
        ({
            let state = State::Report { batch, caps, report, values, usages };
            &&& state.after(Reply::Value(value)) == (State::Report {
                batch,
                caps,
                report,
                values: values.push(value),
                usages,
            })
            &&& state.after(Reply::Usages(list)) == (State::Report {
                batch,
                caps,
                report,
                values,
                usages: usages.push(list),
            })
            &&& report + 1 >= batch.report_count ==> state.after(Reply::Drawn) == State::Done
            &&& report + 1 < batch.report_count ==> state.after(Reply::Drawn) == (State::Report {
                batch,
                caps,
                report: (report + 1) as u32,
                values: Seq::empty(),
                usages: Seq::empty(),
            })
        }),
{
}

/// A reply is accepted where it answers what was asked for and fits: reports lie
/// within the bytes that came with them and at 32-bit places, there are as many
/// fields as were asked for, and no more usages than there is room for.
pub proof fn law_fitting_answers_are_accepted(state: State, reply: Reply)
    ensures
        state.accepts(reply) <==> match reply {
            Reply::RawSize(_) => state.request() is RawSize,
            Reply::RawData(_) => state.request() is RawData,
            Reply::DeviceType(_) => state.request() is DeviceType,
            Reply::Payload { report_count, report_size, data } => state.request() is Payload && (
            report_count == 0 || report_size == 0 || (report_count * report_size <= data@.len() && (
            report_count - 1) * report_size <= 0xffff_ffff)),
            Reply::PreparsedSize(_) => state.request() is PreparsedSize,
            Reply::Preparsed => state.request() is Preparsed,
            Reply::ValueCapCount(_) => state.request() is ValueCapCount,
            Reply::ValueCaps(caps) => state.request() matches Request::ValueCaps { count }
                && caps@.len() == count,
            Reply::Value(_) => state.request() is Value,
            Reply::Usages(usages) => state.request() is Usages && (usages matches Some(list)
                ==> list.len <= 8),
            Reply::Drawn => state.request() is Draw,
        },
{
}

/// The frame of a report shows its contacts with the ranges of its device. There
/// is none where a distance that places a touching finger, or the width of a
/// range, is not a 32-bit number.
pub proof fn law_a_report_is_shown_with_its_devices_ranges(
    batch: ReportBatch,
    caps: Seq<ValueCap>,
    report: u32,
    values: Seq<Option<u32>>,
    usages: Seq<Option<UsageList>>,
)
    ensures
        ({
            let state = State::Report { batch, caps, report, values, usages };
            let contacts = decoded(caps, values, usages);
            &&& state.picture() == frame(active(contacts), ranges_of(caps))
            &&& state.drawable() <==> renderable(contacts, ranges_of(caps))
        }),
{
}

} // verus!
