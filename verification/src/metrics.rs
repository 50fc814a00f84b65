//! The probe's counters, as text for a scraper.
use crate::text::{self, push_decimal};
use crate::text_laws;
use vstd::prelude::*;
use vstd::string::StringExecFns;

verus! {

/// The counters.
#[derive(Debug, Clone, Copy)]
pub struct Metrics {
    pub captured: u64,
    pub written: u64,
    pub dropped: u64,
    pub degraded: u64,
    pub slicer_dropped: u64,
}

impl Default for Metrics {
    fn default() -> (r: Self)
        ensures
            r == (Metrics { captured: 0, written: 0, dropped: 0, degraded: 0, slicer_dropped: 0 }),
    {
        Metrics { captured: 0, written: 0, dropped: 0, degraded: 0, slicer_dropped: 0 }
    }
}

impl Metrics {
    /// The text of the counters.
    pub open spec fn rendered(self, degraded_now: bool) -> Seq<char> {
        "# HELP sovprobe_captured_total 捕获帧数\n# TYPE sovprobe_captured_total counter\nsovprobe_captured_total "@
            + text::decimal(self.captured as nat)
            + "\n# TYPE sovprobe_written_total counter\nsovprobe_written_total "@ + text::decimal(
            self.written as nat,
        ) + "\n# TYPE sovprobe_dropped_total counter\nsovprobe_dropped_total "@ + text::decimal(
            self.dropped as nat,
        ) + "\n# TYPE sovprobe_degraded_total counter\nsovprobe_degraded_total "@ + text::decimal(
            self.degraded as nat,
        ) + "\n# TYPE sovprobe_degraded_now gauge\nsovprobe_degraded_now "@ + text::decimal(
            if degraded_now {
                1
            } else {
                0
            },
        ) + "\n# TYPE sovprobe_slicer_dropped_total counter\nsovprobe_slicer_dropped_total "@
            + text::decimal(self.slicer_dropped as nat) + "\n"@
    }

    /// The counters in the text format that Prometheus reads.
    pub fn render(&self, degraded_now: bool) -> (r: String)
        ensures
            r@ == self.rendered(degraded_now),
            r@ == "# HELP sovprobe_captured_total 捕获帧数\n# TYPE sovprobe_captured_total counter\nsovprobe_captured_total "@
                + text::decimal(self.captured as nat)
                + "\n# TYPE sovprobe_written_total counter\nsovprobe_written_total "@ + text::decimal(
                self.written as nat,
            ) + "\n# TYPE sovprobe_dropped_total counter\nsovprobe_dropped_total "@ + text::decimal(
                self.dropped as nat,
            ) + "\n# TYPE sovprobe_degraded_total counter\nsovprobe_degraded_total "@ + text::decimal(
                self.degraded as nat,
            ) + "\n# TYPE sovprobe_degraded_now gauge\nsovprobe_degraded_now "@ + text::decimal(
                if degraded_now {
                    1
                } else {
                    0
                },
            ) + "\n# TYPE sovprobe_slicer_dropped_total counter\nsovprobe_slicer_dropped_total "@
                + text::decimal(self.slicer_dropped as nat) + "\n"@,
    {
        let mut out: String = String::from_str(
            "# HELP sovprobe_captured_total 捕获帧数\n# TYPE sovprobe_captured_total counter\nsovprobe_captured_total ",
        );
        push_decimal(&mut out, self.captured);
        out.append("\n# TYPE sovprobe_written_total counter\nsovprobe_written_total ");
        push_decimal(&mut out, self.written);
        out.append("\n# TYPE sovprobe_dropped_total counter\nsovprobe_dropped_total ");
        push_decimal(&mut out, self.dropped);
        out.append("\n# TYPE sovprobe_degraded_total counter\nsovprobe_degraded_total ");
        push_decimal(&mut out, self.degraded);
        out.append("\n# TYPE sovprobe_degraded_now gauge\nsovprobe_degraded_now ");
        push_decimal(
            &mut out,
            if degraded_now {
                1
            } else {
                0
            },
        );
        out.append("\n# TYPE sovprobe_slicer_dropped_total counter\nsovprobe_slicer_dropped_total ");
        push_decimal(&mut out, self.slicer_dropped);
        out.append("\n");
        out
    }
}

/// The HTTP response that carries `body`. The stated length is that of the body in bytes.
pub fn http_response(body: &str) -> (r: String)
    ensures
        r@ == "HTTP/1.1 200 OK\r\nContent-Type: text/plain\r\nContent-Length: "@ + text::decimal(
            body.len() as nat,
        ) + "\r\nConnection: close\r\n\r\n"@ + body@,
{
    let len: usize = body.len();
    let mut out: String = String::from_str(
        "HTTP/1.1 200 OK\r\nContent-Type: text/plain\r\nContent-Length: ",
    );
    push_decimal(&mut out, len as u64);
    out.append("\r\nConnection: close\r\n\r\n");
    out.append(body);
    out
}

/// Every counter stands in the text on a line of its own, behind its name, in full; and the gauge is 1
/// while load is shed and 0 otherwise.
#[verifier::rlimit(100)]
#[verifier::spinoff_prover]
pub proof fn law_text_says_every_counter(m: Metrics, degraded_now: bool)
    ensures
        ({
            let whole = m.rendered(degraded_now);
            let now: nat = if degraded_now {
                1
            } else {
                0
            };
            &&& text_laws::says(whole, "\nsovprobe_captured_total "@, m.captured as nat, '\n')
            &&& text_laws::says(whole, "\nsovprobe_written_total "@, m.written as nat, '\n')
            &&& text_laws::says(whole, "\nsovprobe_dropped_total "@, m.dropped as nat, '\n')
            &&& text_laws::says(whole, "\nsovprobe_degraded_total "@, m.degraded as nat, '\n')
            &&& text_laws::says(whole, "\nsovprobe_degraded_now "@, now, '\n')
            &&& text_laws::says(whole, "\nsovprobe_slicer_dropped_total "@, m.slicer_dropped as nat, '\n')
        }),
{
    let whole = m.rendered(degraded_now);
    let now: nat = if degraded_now {
        1
    } else {
        0
    };
    let l0 = "# HELP sovprobe_captured_total 捕获帧数\n# TYPE sovprobe_captured_total counter\nsovprobe_captured_total "@;
    let l1 = "\n# TYPE sovprobe_written_total counter\nsovprobe_written_total "@;
    let l2 = "\n# TYPE sovprobe_dropped_total counter\nsovprobe_dropped_total "@;
    let l3 = "\n# TYPE sovprobe_degraded_total counter\nsovprobe_degraded_total "@;
    let l4 = "\n# TYPE sovprobe_degraded_now gauge\nsovprobe_degraded_now "@;
    let l5 = "\n# TYPE sovprobe_slicer_dropped_total counter\nsovprobe_slicer_dropped_total "@;
    let x0 = l0 + text::decimal(m.captured as nat);
    let x1 = x0 + l1 + text::decimal(m.written as nat);
    let x2 = x1 + l2 + text::decimal(m.dropped as nat);
    let x3 = x2 + l3 + text::decimal(m.degraded as nat);
    let x4 = x3 + l4 + text::decimal(now);
    let x5 = x4 + l5 + text::decimal(m.slicer_dropped as nat);
    reveal_strlit("\n");
    assert(whole == x5 + "\n"@);
    assert(x5 =~= whole.subrange(0, x5.len() as int));
    assert(whole[x5.len() as int] == '\n');
    assert(text_laws::stands(whole, x5, '\n'));
    reveal_strlit("\n# TYPE sovprobe_slicer_dropped_total counter\nsovprobe_slicer_dropped_total ");
    text_laws::lemma_goes_on(whole, x4, l5, m.slicer_dropped as nat, '\n');
    reveal_strlit("\n# TYPE sovprobe_degraded_now gauge\nsovprobe_degraded_now ");
    text_laws::lemma_goes_on(whole, x3, l4, now, '\n');
    reveal_strlit("\n# TYPE sovprobe_degraded_total counter\nsovprobe_degraded_total ");
    text_laws::lemma_goes_on(whole, x2, l3, m.degraded as nat, '\n');
    reveal_strlit("\n# TYPE sovprobe_dropped_total counter\nsovprobe_dropped_total ");
    text_laws::lemma_goes_on(whole, x1, l2, m.dropped as nat, '\n');
    reveal_strlit("\n# TYPE sovprobe_written_total counter\nsovprobe_written_total ");
    text_laws::lemma_goes_on(whole, x0, l1, m.written as nat, '\n');
    lemma_label_captured_total();
    assert(Seq::<char>::empty() + l0 + text::decimal(m.captured as nat) =~= x0);
    text_laws::lemma_label_end(whole, Seq::empty(), l0, "\nsovprobe_captured_total "@, m.captured as nat, '\n');
    lemma_label_written_total();
    text_laws::lemma_label_end(whole, x0, l1, "\nsovprobe_written_total "@, m.written as nat, '\n');
    lemma_label_dropped_total();
    text_laws::lemma_label_end(whole, x1, l2, "\nsovprobe_dropped_total "@, m.dropped as nat, '\n');
    lemma_label_degraded_total();
    text_laws::lemma_label_end(whole, x2, l3, "\nsovprobe_degraded_total "@, m.degraded as nat, '\n');
    lemma_label_degraded_now();
    text_laws::lemma_label_end(whole, x3, l4, "\nsovprobe_degraded_now "@, now, '\n');
    lemma_label_slicer_dropped_total();
    text_laws::lemma_label_end(whole, x4, l5, "\nsovprobe_slicer_dropped_total "@, m.slicer_dropped as nat, '\n');
}

/// The label of a counter ends with its name.
proof fn lemma_label_captured_total()
    ensures
        ({
            let label = "# HELP sovprobe_captured_total 捕获帧数\n# TYPE sovprobe_captured_total counter\nsovprobe_captured_total "@;
            let end = "\nsovprobe_captured_total "@;
            &&& end.len() <= label.len()
            &&& label.skip(label.len() - end.len()) == end
        }),
{
    reveal_strlit("# HELP sovprobe_captured_total 捕获帧数\n# TYPE sovprobe_captured_total counter\nsovprobe_captured_total ");
    reveal_strlit("\nsovprobe_captured_total ");
    let label = "# HELP sovprobe_captured_total 捕获帧数\n# TYPE sovprobe_captured_total counter\nsovprobe_captured_total "@;
    let end = "\nsovprobe_captured_total "@;
    assert(label.skip(label.len() - end.len()) =~= end);
}

/// The label of a counter ends with its name.
proof fn lemma_label_written_total()
    ensures
        ({
            let label = "\n# TYPE sovprobe_written_total counter\nsovprobe_written_total "@;
            let end = "\nsovprobe_written_total "@;
            &&& end.len() <= label.len()
            &&& label.skip(label.len() - end.len()) == end
        }),
{
    reveal_strlit("\n# TYPE sovprobe_written_total counter\nsovprobe_written_total ");
    reveal_strlit("\nsovprobe_written_total ");
    let label = "\n# TYPE sovprobe_written_total counter\nsovprobe_written_total "@;
    let end = "\nsovprobe_written_total "@;
    assert(label.skip(label.len() - end.len()) =~= end);
}

/// The label of a counter ends with its name.
proof fn lemma_label_dropped_total()
    ensures
        ({
            let label = "\n# TYPE sovprobe_dropped_total counter\nsovprobe_dropped_total "@;
            let end = "\nsovprobe_dropped_total "@;
            &&& end.len() <= label.len()
            &&& label.skip(label.len() - end.len()) == end
        }),
{
    reveal_strlit("\n# TYPE sovprobe_dropped_total counter\nsovprobe_dropped_total ");
    reveal_strlit("\nsovprobe_dropped_total ");
    let label = "\n# TYPE sovprobe_dropped_total counter\nsovprobe_dropped_total "@;
    let end = "\nsovprobe_dropped_total "@;
    assert(label.skip(label.len() - end.len()) =~= end);
}

/// The label of a counter ends with its name.
proof fn lemma_label_degraded_total()
    ensures
        ({
            let label = "\n# TYPE sovprobe_degraded_total counter\nsovprobe_degraded_total "@;
            let end = "\nsovprobe_degraded_total "@;
            &&& end.len() <= label.len()
            &&& label.skip(label.len() - end.len()) == end
        }),
{
    reveal_strlit("\n# TYPE sovprobe_degraded_total counter\nsovprobe_degraded_total ");
    reveal_strlit("\nsovprobe_degraded_total ");
    let label = "\n# TYPE sovprobe_degraded_total counter\nsovprobe_degraded_total "@;
    let end = "\nsovprobe_degraded_total "@;
    assert(label.skip(label.len() - end.len()) =~= end);
}

/// The label of a counter ends with its name.
proof fn lemma_label_degraded_now()
    ensures
        ({
            let label = "\n# TYPE sovprobe_degraded_now gauge\nsovprobe_degraded_now "@;
            let end = "\nsovprobe_degraded_now "@;
            &&& end.len() <= label.len()
            &&& label.skip(label.len() - end.len()) == end
        }),
{
    reveal_strlit("\n# TYPE sovprobe_degraded_now gauge\nsovprobe_degraded_now ");
    reveal_strlit("\nsovprobe_degraded_now ");
    let label = "\n# TYPE sovprobe_degraded_now gauge\nsovprobe_degraded_now "@;
    let end = "\nsovprobe_degraded_now "@;
    assert(label.skip(label.len() - end.len()) =~= end);
}

/// The label of a counter ends with its name.
proof fn lemma_label_slicer_dropped_total()
    ensures
        ({
            let label = "\n# TYPE sovprobe_slicer_dropped_total counter\nsovprobe_slicer_dropped_total "@;
            let end = "\nsovprobe_slicer_dropped_total "@;
            &&& end.len() <= label.len()
            &&& label.skip(label.len() - end.len()) == end
        }),
{
    reveal_strlit("\n# TYPE sovprobe_slicer_dropped_total counter\nsovprobe_slicer_dropped_total ");
    reveal_strlit("\nsovprobe_slicer_dropped_total ");
    let label = "\n# TYPE sovprobe_slicer_dropped_total counter\nsovprobe_slicer_dropped_total "@;
    let end = "\nsovprobe_slicer_dropped_total "@;
    assert(label.skip(label.len() - end.len()) =~= end);
}

} // verus!
