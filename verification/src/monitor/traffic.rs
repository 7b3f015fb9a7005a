//! How much traffic there is.

use crate::proxy::Traffic;
use crate::time::Duration;
use vstd::prelude::*;

verus! {

/// How many bytes there were at a time.
#[derive(Debug, Clone, Copy, PartialEq, Eq, Structural)]
pub struct TrafficSample {
    pub time: Duration,
    pub amt: Traffic,
}

/// How many bits are sent and received in a second.
#[derive(Debug, Clone, Copy, PartialEq, Eq, Structural)]
pub struct Throughput {
    pub tx_bps: usize,
    pub rx_bps: usize,
}

impl Default for Throughput {
    /// None at all.
    fn default() -> (r: Throughput)
        ensures
            r == (Throughput { tx_bps: 0, rx_bps: 0 }),
    {
        Throughput { tx_bps: 0, rx_bps: 0 }
    }
}

impl std::ops::Add for Throughput {
    type Output = Throughput;

    fn add(self, other: Throughput) -> (r: Throughput) {
        Throughput { tx_bps: self.tx_bps + other.tx_bps, rx_bps: self.rx_bps + other.rx_bps }
    }
}

impl vstd::std_specs::ops::AddSpecImpl for Throughput {
    open spec fn obeys_add_spec() -> bool {
        true
    }

    open spec fn add_req(self, other: Throughput) -> bool {
        self.tx_bps + other.tx_bps <= usize::MAX && self.rx_bps + other.rx_bps <= usize::MAX
    }

    open spec fn add_spec(self, other: Throughput) -> Throughput {
        Throughput {
            tx_bps: (self.tx_bps + other.tx_bps) as usize,
            rx_bps: (self.rx_bps + other.rx_bps) as usize,
        }
    }
}

/// The last two samples, the newest first.
#[derive(Debug)]
pub struct Meter {
    samples: Vec<TrafficSample>,
}

impl View for Meter {
    type V = Seq<TrafficSample>;

    closed spec fn view(&self) -> Seq<TrafficSample> {
        self.samples@
    }
}

/// The samples of some meters.
pub open spec fn meter_models(meters: Seq<Meter>) -> Seq<Seq<TrafficSample>> {
    meters.map_values(|m: Meter| m@)
}

/// The samples once one more was taken: it comes first, and of those before it
/// only the newest stays.
pub open spec fn sampled(samples: Seq<TrafficSample>, sample: TrafficSample) -> Seq<TrafficSample> {
    if samples.len() == 0 {
        seq![sample]
    } else {
        seq![sample, samples[0]]
    }
}

/// What the throughput is measured from: the bytes between the oldest sample and
/// the current one, and the times of the two.
pub open spec fn measurement(
    samples: Seq<TrafficSample>,
    current: TrafficSample,
) -> Option<(Traffic, Duration, Duration)> {
    if samples.len() == 0 {
        None
    } else {
        let oldest = samples.last();
        Some(
            (
                Traffic {
                    tx_bytes: (current.amt.tx_bytes - oldest.amt.tx_bytes) as usize,
                    rx_bytes: (current.amt.rx_bytes - oldest.amt.rx_bytes) as usize,
                },
                oldest.time,
                current.time,
            ),
        )
    }
}

/// Whether no byte count of the oldest sample lies beyond the current one.
pub open spec fn is_measurable(samples: Seq<TrafficSample>, amt: Traffic) -> bool {
    samples.len() > 0 ==> {
        &&& samples.last().amt.tx_bytes <= amt.tx_bytes
        &&& samples.last().amt.rx_bytes <= amt.rx_bytes
    }
}

impl Clone for Meter {
    fn clone(&self) -> (r: Meter)
        ensures
            r@ == self@,
    {
        proof {
            use_type_invariant(self);
        }
        let mut samples: Vec<TrafficSample> = Vec::new();
        let n = self.samples.len();
        let mut i: usize = 0;
        while i < n
            invariant
                n == self.samples@.len(),
                n <= 2,
                i <= n,
                samples@ == self.samples@.take(i as int),
            decreases n - i,
        {
            samples.push(self.samples[i]);
            i = i + 1;
            assert(samples@ =~= self.samples@.take(i as int));
        }
        assert(self.samples@.take(n as int) =~= self.samples@);
        Meter { samples }
    }
}

impl Meter {
    #[verifier::type_invariant]
    closed spec fn inv(self) -> bool {
        self.samples@.len() <= 2
    }

    /// No sample yet.
    pub fn new() -> (r: Meter)
        ensures
            r@ == Seq::<TrafficSample>::empty(),
    {
        Meter { samples: Vec::new() }
    }

    /// Adds a sample; all but the newest one before it are forgotten.
    pub fn add_sample(&mut self, sample: TrafficSample)
        ensures
            final(self)@ == sampled(old(self)@, sample),
    {
        let mut samples: Vec<TrafficSample> = Vec::new();
        samples.push(sample);
        if self.samples.len() > 0 {
            samples.push(self.samples[0]);
        }
        assert(samples@ =~= sampled(self@, sample));
        self.samples = samples;
    }

    /// The oldest sample that is known.
    pub fn oldest(&self) -> (r: Option<TrafficSample>)
        ensures
            r == if self@.len() == 0 {
                None
            } else {
                Some(self@.last())
            },
            self@.len() <= 2,
    {
        proof {
            use_type_invariant(self);
        }
        let n = self.samples.len();
        if n == 0 {
            None
        } else {
            Some(self.samples[n - 1])
        }
    }

    /// Whether the traffic has only grown since the oldest sample.
    pub fn is_measurable(&self, amt: Traffic) -> (r: bool)
        ensures
            r == is_measurable(self@, amt),
    {
        match self.oldest() {
            None => true,
            Some(oldest) => oldest.amt.tx_bytes <= amt.tx_bytes && oldest.amt.rx_bytes
                <= amt.rx_bytes,
        }
    }

    /// What the throughput is measured from: the bytes that were sent and
    /// received between the oldest sample and the given one, and the times of
    /// the two. None where there is no sample.
    pub fn throughput(&self, current: TrafficSample) -> (r: Option<(Traffic, Duration, Duration)>)
        requires
            is_measurable(self@, current.amt),
        ensures
            r == measurement(self@, current),
    {
        match self.oldest() {
            None => None,
            Some(oldest) => Some(
                (
                    Traffic {
                        tx_bytes: current.amt.tx_bytes - oldest.amt.tx_bytes,
                        rx_bytes: current.amt.rx_bytes - oldest.amt.rx_bytes,
                    },
                    oldest.time,
                    current.time,
                ),
            ),
        }
    }
}

/// What is measured lies one sample back: after two samples, the first of them
/// is the oldest one, whatever came before.
pub proof fn lemma_oldest_is_one_back(
    before: Seq<TrafficSample>,
    first: TrafficSample,
    second: TrafficSample,
)
    ensures
        sampled(sampled(before, first), second) == seq![second, first],
{
}

/// The throughput is measured from the bytes that came since the oldest sample,
/// and from no sample nothing is measured.
pub proof fn lemma_bytes_since_oldest(samples: Seq<TrafficSample>, current: TrafficSample)
    requires
        is_measurable(samples, current.amt),
    ensures
        samples.len() == 0 <==> measurement(samples, current) is None,
        measurement(samples, current) matches Some((amt, from, to)) ==> {
            &&& samples.last().amt.tx_bytes + amt.tx_bytes == current.amt.tx_bytes
            &&& samples.last().amt.rx_bytes + amt.rx_bytes == current.amt.rx_bytes
            &&& from == samples.last().time
            &&& to == current.time
        },
{
}

} // verus!
