//! How much traffic the networks carry, as far as it can be attributed.

use vstd::prelude::*;

use crate::docker::container;
use crate::docker::container::ContainerListItem;
use crate::docker::container::ContainerStateStatusEnum;
use crate::registry::Registry;
use crate::text;
use crate::text::texts;

verus! {

/// Whether a measurement is there.
#[derive(Clone, Copy, Debug, PartialEq, Eq, Structural)]
pub enum DockerMetricStatus {
    Pending,
    Available,
    Unavailable,
}

/// The traffic counters of a container.
#[derive(Clone, Debug, PartialEq, Eq)]
pub struct ContainerTrafficSample {
    pub network: String,
    pub ingress_bytes: u64,
    pub egress_bytes: u64,
    pub measured_at: i64,
}

/// What a container adds to the rates of its network: so many bytes in so many
/// milliseconds.
#[derive(Clone, Copy, Debug, PartialEq, Eq, Structural)]
pub struct RateShare {
    pub ingress_bytes: u64,
    pub egress_bytes: u64,
    pub elapsed_ms: u64,
}

/// The traffic of a network.
#[derive(Clone, Debug, PartialEq, Eq)]
pub struct DockerNetworkUsage {
    pub status: DockerMetricStatus,
    pub ingress_bytes: Option<u64>,
    pub egress_bytes: Option<u64>,
    pub measured_at: Option<i64>,
    pub unavailable_reason: Option<String>,
    pub rate_status: DockerMetricStatus,
    /// What the rates are made of: each rate is the sum of the shares.
    pub rate_shares: Option<Vec<RateShare>>,
    pub rate_unavailable_reason: Option<String>,
}

/// No samples have been taken.
pub fn previous_samples() -> (samples: Registry<ContainerTrafficSample>)
    ensures
        samples.well_formed(),
        samples@ == Map::<Seq<char>, ContainerTrafficSample>::empty(),
{
    Registry::new()
}

// ---------------------------------------------------------------------------
// Taking samples
// ---------------------------------------------------------------------------

/// The counters of one interface of a container.
#[derive(Clone, Copy, Debug, PartialEq, Eq, Structural)]
pub struct InterfaceCounters {
    pub rx_bytes: Option<u64>,
    pub tx_bytes: Option<u64>,
}

/// Why the counters of a container cannot be used.
#[derive(Clone, Copy, Debug, PartialEq, Eq, Structural)]
pub enum CounterError {
    /// There are no counters.
    Omitted,
    /// There is no interface.
    Empty,
    /// An interface has no counter of received bytes.
    NoIngress,
    /// An interface has no counter of sent bytes.
    NoEgress,
    /// The received bytes cannot be counted.
    IngressOverflow,
    /// The sent bytes cannot be counted.
    EgressOverflow,
}

/// The sums of the counters.
pub open spec fn counter_sums(interfaces: Seq<InterfaceCounters>) -> Result<(u64, u64), CounterError>
    decreases interfaces.len(),
{
    if interfaces.len() == 0 {
        Ok((0, 0))
    } else {
        match counter_sums(interfaces.drop_last()) {
            Err(error) => Err(error),
            Ok((ingress, egress)) => match interfaces.last().rx_bytes {
                None => Err(CounterError::NoIngress),
                Some(rx) => match interfaces.last().tx_bytes {
                    None => Err(CounterError::NoEgress),
                    Some(tx) => if ingress + rx > u64::MAX {
                        Err(CounterError::IngressOverflow)
                    } else if egress + tx > u64::MAX {
                        Err(CounterError::EgressOverflow)
                    } else {
                        Ok(((ingress + rx) as u64, (egress + tx) as u64))
                    },
                },
            },
        }
    }
}

proof fn lemma_sums_stop(interfaces: Seq<InterfaceCounters>, n: int)
    requires
        0 <= n <= interfaces.len(),
        counter_sums(interfaces.take(n)) is Err,
    ensures
        counter_sums(interfaces) == counter_sums(interfaces.take(n)),
    decreases interfaces.len(),
{
    if n == interfaces.len() {
        assert(interfaces.take(n) =~= interfaces);
    } else {
        assert(interfaces.drop_last().take(n) =~= interfaces.take(n));
        lemma_sums_stop(interfaces.drop_last(), n);
    }
}

/// The received and sent bytes of a container, over all its interfaces.
pub fn network_counters(interfaces: &Option<Vec<InterfaceCounters>>) -> (counters: Result<
    (u64, u64),
    CounterError,
>)
    ensures
        counters == match *interfaces {
            None => Err(CounterError::Omitted),
            Some(list) => if list@.len() == 0 {
                Err(CounterError::Empty)
            } else {
                counter_sums(list@)
            },
        },
{
    let list = match interfaces {
        None => {
            return Err(CounterError::Omitted);
        },
        Some(list) => list,
    };
    if list.len() == 0 {
        return Err(CounterError::Empty);
    }
    let mut ingress: u64 = 0;
    let mut egress: u64 = 0;
    for i in 0..list.len()
        invariant
            *interfaces == Some(*list),
            list@.len() > 0,
            counter_sums(list@.take(i as int)) == Ok::<(u64, u64), CounterError>((ingress, egress)),
    {
        proof {
            assert(list@.take(i + 1).drop_last() =~= list@.take(i as int));
            if counter_sums(list@.take(i + 1)) is Err {
                lemma_sums_stop(list@, i + 1);
            }
        }
        let rx = match list[i].rx_bytes {
            None => {
                return Err(CounterError::NoIngress);
            },
            Some(rx) => rx,
        };
        let tx = match list[i].tx_bytes {
            None => {
                return Err(CounterError::NoEgress);
            },
            Some(tx) => tx,
        };
        ingress = match ingress.checked_add(rx) {
            None => {
                return Err(CounterError::IngressOverflow);
            },
            Some(sum) => sum,
        };
        egress = match egress.checked_add(tx) {
            None => {
                return Err(CounterError::EgressOverflow);
            },
            Some(sum) => sum,
        };
    }
    assert(list@.take(list@.len() as int) =~= list@);
    Ok((ingress, egress))
}

/// What is done to sample a container.
#[derive(Clone, Debug, PartialEq, Eq)]
pub enum SampleTarget {
    /// The container is not sampled.
    Skip,
    /// The counters are read and attributed to the network.
    Read { id: String, network: String },
    /// The traffic cannot be attributed.
    Refuse { id: String, reason: String },
}

/// What is done to sample a container: only a running one with an identity is
/// sampled, and only if all its traffic belongs to one network.
pub fn sample_target(item: &ContainerListItem) -> (target: SampleTarget)
    ensures
        ({
            let sampled = item.state == ContainerStateStatusEnum::Running && item.id is Some;
            let host = text::held(item.network_mode) == Some("host"@);
            match target {
                SampleTarget::Skip => !sampled,
                SampleTarget::Read { id, network } => sampled && text::held(item.id) == Some(id@)
                    && !host && item.networks@.len() == 1 && network@ == item.networks@[0]@,
                SampleTarget::Refuse { id, reason } => sampled && text::held(item.id) == Some(id@)
                    && if host {
                    reason@ == "Host-network traffic cannot be attributed safely"@
                } else {
                    item.networks@.len() != 1 && reason@ == "Container "@ + item.name@
                        + " is attached to "@ + text::decimal_digits(item.networks@.len())
                        + " named networks"@
                },
            }
        }),
{
    if !container::is_running(item) {
        return SampleTarget::Skip;
    }
    let id = match &item.id {
        None => {
            return SampleTarget::Skip;
        },
        Some(id) => id.clone(),
    };
    if text::is_some_text(&item.network_mode, "host") {
        return SampleTarget::Refuse {
            id,
            reason: "Host-network traffic cannot be attributed safely".to_owned(),
        };
    }
    if item.networks.len() != 1 {
        let count = text::decimal(item.networks.len() as u64);
        let mut reason = text::concat3("Container ", item.name.as_str(), " is attached to ");
        reason.append(count.as_str());
        reason.append(" named networks");
        return SampleTarget::Refuse { id, reason };
    }
    SampleTarget::Read { id, network: item.networks[0].clone() }
}

/// The samples that were taken, for the next time.
pub open spec fn kept_samples(
    samples: Map<Seq<char>, Result<ContainerTrafficSample, String>>,
    kept: Map<Seq<char>, ContainerTrafficSample>,
) -> bool {
    &&& forall|id: Seq<char>| #[trigger]
        kept.dom().contains(id) <==> samples.dom().contains(id) && samples[id] is Ok
    &&& forall|id: Seq<char>| #[trigger]
        kept.dom().contains(id) ==> samples[id] == Ok::<ContainerTrafficSample, String>(kept[id])
}

fn copy_sample(sample: &ContainerTrafficSample) -> (copy: ContainerTrafficSample)
    ensures
        copy == *sample,
{
    ContainerTrafficSample {
        network: sample.network.clone(),
        ingress_bytes: sample.ingress_bytes,
        egress_bytes: sample.egress_bytes,
        measured_at: sample.measured_at,
    }
}

/// The samples that were taken, for the next time.
pub fn keep_samples(samples: &Registry<Result<ContainerTrafficSample, String>>) -> (kept: Registry<
    ContainerTrafficSample,
>)
    requires
        samples.well_formed(),
    ensures
        kept.well_formed(),
        kept_samples(samples@, kept@),
{
    let mut kept: Registry<ContainerTrafficSample> = Registry::new();
    let mut i: usize = 0;
    while i < samples.len()
        invariant
            i <= samples.spec_len(),
            samples.well_formed(),
            kept.well_formed(),
            forall|id: Seq<char>| #[trigger]
                kept@.dom().contains(id) <==> exists|k: int|
                    0 <= k < i && #[trigger] samples.key_at(k) == id && samples@[id] is Ok,
            forall|id: Seq<char>| #[trigger]
                kept@.dom().contains(id) ==> samples@[id] == Ok::<ContainerTrafficSample, String>(
                    kept@[id],
                ),
        decreases samples.spec_len() - i,
    {
        let (key, sample) = samples.entry_at(i);
        let ghost before = kept@;
        match sample {
            Ok(taken) => {
                kept.insert(key.clone(), copy_sample(taken));
            },
            Err(_) => {},
        }
        proof {
            assert forall|id: Seq<char>| #[trigger] kept@.dom().contains(id) <==> exists|k: int|
                0 <= k < i + 1 && #[trigger] samples.key_at(k) == id && samples@[id] is Ok by {
                if before.dom().contains(id) {
                    let k = choose|k: int|
                        0 <= k < i && #[trigger] samples.key_at(k) == id && samples@[id] is Ok;
                    assert(samples.key_at(k) == id);
                }
                if id == key@ && sample is Ok {
                    assert(samples.key_at(i as int) == id);
                }
            }
        }
        i = i + 1;
    }
    proof {
        samples.lemma_positions();
        assert forall|id: Seq<char>| #[trigger] kept@.dom().contains(id) <==> samples@.dom().contains(
            id,
        ) && samples@[id] is Ok by {
            if samples@.dom().contains(id) && samples@[id] is Ok {
                let k = choose|k: int|
                    0 <= k < samples.spec_len() && #[trigger] samples.key_at(k) == id;
                assert(samples.key_at(k) == id);
            }
        }
    }
    kept
}

// ---------------------------------------------------------------------------
// Attributing traffic
// ---------------------------------------------------------------------------

/// A difference, at most as large as an `i64` holds.
pub open spec fn limited_difference(a: i64, b: i64) -> i64 {
    if a - b > i64::MAX {
        i64::MAX
    } else if a - b < i64::MIN {
        i64::MIN
    } else {
        (a - b) as i64
    }
}

fn difference(a: i64, b: i64) -> (result: i64)
    ensures
        result == limited_difference(a, b),
{
    let exact: i128 = a as i128 - b as i128;
    if exact > i64::MAX as i128 {
        i64::MAX
    } else if exact < i64::MIN as i128 {
        i64::MIN
    } else {
        exact as i64
    }
}

/// Why the traffic of a container does not count for the network.
pub open spec fn sample_refusal(
    network: Seq<char>,
    item: ContainerListItem,
    current: Map<Seq<char>, Result<ContainerTrafficSample, String>>,
    now: i64,
    stale_after_ms: i64,
) -> Option<Seq<char>> {
    if text::held(item.network_mode) == Some("host"@) {
        Some("Host-network traffic cannot be attributed to a named network"@)
    } else if item.networks@.len() != 1 {
        Some("Container "@ + item.name@ + " is attached to multiple named networks"@)
    } else {
        match item.id {
            None => Some("Container "@ + item.name@ + " has no Docker id"@),
            Some(id) => if !current.dom().contains(id@) {
                Some("Container "@ + item.name@ + " has no current sample"@)
            } else {
                match current[id@] {
                    Err(reason) => Some(reason@),
                    Ok(sample) => if sample.network@ != network {
                        Some(
                            "Container "@ + item.name@
                                + " changed network membership during measurement"@,
                        )
                    } else if limited_difference(now, sample.measured_at) > stale_after_ms {
                        Some("Container "@ + item.name@ + " has a stale sample"@)
                    } else {
                        None
                    },
                }
            },
        }
    }
}

/// The current sample of a container that has one.
pub open spec fn sample_of(
    item: ContainerListItem,
    current: Map<Seq<char>, Result<ContainerTrafficSample, String>>,
) -> ContainerTrafficSample {
    current[item.id->Some_0@]->Ok_0
}

/// What a container adds to the rates of its network, or why that is not known.
pub open spec fn share_of(
    sample: ContainerTrafficSample,
    id: Seq<char>,
    previous: Map<Seq<char>, ContainerTrafficSample>,
) -> Result<RateShare, Seq<char>> {
    if !previous.dom().contains(id) {
        Err("Waiting for a second stable sample"@)
    } else {
        let prior = previous[id];
        if prior.network@ != sample.network@ {
            Err("Network membership changed since the previous sample"@)
        } else if sample.ingress_bytes < prior.ingress_bytes || sample.egress_bytes
            < prior.egress_bytes {
            Err("A container network counter reset since the previous sample"@)
        } else if sample.measured_at <= prior.measured_at {
            Err("The previous sample is not older than the current sample"@)
        } else {
            Ok(
                RateShare {
                    ingress_bytes: (sample.ingress_bytes - prior.ingress_bytes) as u64,
                    egress_bytes: (sample.egress_bytes - prior.egress_bytes) as u64,
                    elapsed_ms: (sample.measured_at - prior.measured_at) as u64,
                },
            )
        }
    }
}

/// The traffic of a network, over texts.
pub struct Traffic {
    pub ingress: u64,
    pub egress: u64,
    pub rate: Result<Seq<RateShare>, Seq<char>>,
}

/// The traffic of the contributors, or why it is not known.
pub open spec fn traffic(
    network: Seq<char>,
    contributors: Seq<ContainerListItem>,
    current: Map<Seq<char>, Result<ContainerTrafficSample, String>>,
    previous: Map<Seq<char>, ContainerTrafficSample>,
    now: i64,
    stale_after_ms: i64,
) -> Result<Traffic, Seq<char>>
    decreases contributors.len(),
{
    if contributors.len() == 0 {
        Ok(Traffic { ingress: 0, egress: 0, rate: Ok(Seq::empty()) })
    } else {
        match traffic(network, contributors.drop_last(), current, previous, now, stale_after_ms) {
            Err(reason) => Err(reason),
            Ok(before) => {
                let item = contributors.last();
                match sample_refusal(network, item, current, now, stale_after_ms) {
                    Some(reason) => Err(reason),
                    None => {
                        let sample = sample_of(item, current);
                        if before.ingress + sample.ingress_bytes > u64::MAX {
                            Err("Ingress byte counters overflowed"@)
                        } else if before.egress + sample.egress_bytes > u64::MAX {
                            Err("Egress byte counters overflowed"@)
                        } else {
                            Ok(
                                Traffic {
                                    ingress: (before.ingress + sample.ingress_bytes) as u64,
                                    egress: (before.egress + sample.egress_bytes) as u64,
                                    rate: match before.rate {
                                        Err(reason) => Err(reason),
                                        Ok(shares) => match share_of(
                                            sample,
                                            item.id->Some_0@,
                                            previous,
                                        ) {
                                            Err(reason) => Err(reason),
                                            Ok(share) => Ok(shares.push(share)),
                                        },
                                    },
                                },
                            )
                        }
                    },
                }
            },
        }
    }
}

proof fn lemma_traffic_stops(
    network: Seq<char>,
    contributors: Seq<ContainerListItem>,
    n: int,
    current: Map<Seq<char>, Result<ContainerTrafficSample, String>>,
    previous: Map<Seq<char>, ContainerTrafficSample>,
    now: i64,
    stale_after_ms: i64,
)
    requires
        0 <= n <= contributors.len(),
        traffic(network, contributors.take(n), current, previous, now, stale_after_ms) is Err,
    ensures
        traffic(network, contributors, current, previous, now, stale_after_ms) == traffic(
            network,
            contributors.take(n),
            current,
            previous,
            now,
            stale_after_ms,
        ),
    decreases contributors.len(),
{
    if n == contributors.len() {
        assert(contributors.take(n) =~= contributors);
    } else {
        assert(contributors.drop_last().take(n) =~= contributors.take(n));
        lemma_traffic_stops(
            network,
            contributors.drop_last(),
            n,
            current,
            previous,
            now,
            stale_after_ms,
        );
    }
}

/// The usage tells the traffic.
pub open spec fn tells(
    usage: DockerNetworkUsage,
    known: Result<Traffic, Seq<char>>,
    measured_at: i64,
) -> bool {
    &&& usage.measured_at == Some(measured_at)
    &&& match known {
        Err(reason) => {
            &&& usage.status == DockerMetricStatus::Unavailable
            &&& usage.ingress_bytes is None
            &&& usage.egress_bytes is None
            &&& text::held(usage.unavailable_reason) == Some(reason)
            &&& usage.rate_status == DockerMetricStatus::Unavailable
            &&& usage.rate_shares is None
            &&& text::held(usage.rate_unavailable_reason) == Some(reason)
        },
        Ok(sums) => {
            &&& usage.status == DockerMetricStatus::Available
            &&& usage.ingress_bytes == Some(sums.ingress)
            &&& usage.egress_bytes == Some(sums.egress)
            &&& usage.unavailable_reason is None
            &&& match sums.rate {
                Ok(shares) => {
                    &&& usage.rate_status == DockerMetricStatus::Available
                    &&& usage.rate_shares matches Some(list) && list@ == shares
                    &&& usage.rate_unavailable_reason is None
                },
                Err(reason) => {
                    &&& usage.rate_status == DockerMetricStatus::Unavailable
                    &&& usage.rate_shares is None
                    &&& text::held(usage.rate_unavailable_reason) == Some(reason)
                },
            }
        },
    }
}

/// The usage of a network whose traffic is not known.
pub fn unavailable_network(measured_at: i64, reason: String) -> (usage: DockerNetworkUsage)
    ensures
        tells(usage, Err(reason@), measured_at),
{
    DockerNetworkUsage {
        status: DockerMetricStatus::Unavailable,
        ingress_bytes: None,
        egress_bytes: None,
        measured_at: Some(measured_at),
        unavailable_reason: Some(reason.clone()),
        rate_status: DockerMetricStatus::Unavailable,
        rate_shares: None,
        rate_unavailable_reason: Some(reason),
    }
}

fn check_sample<'a>(
    network: &str,
    item: &ContainerListItem,
    current: &'a Registry<Result<ContainerTrafficSample, String>>,
    now: i64,
    stale_after_ms: i64,
) -> (sample: Result<&'a ContainerTrafficSample, String>)
    requires
        current.well_formed(),
    ensures
        match sample {
            Ok(found) => sample_refusal(network@, *item, current@, now, stale_after_ms) is None
                && item.id is Some && *found == sample_of(*item, current@),
            Err(reason) => sample_refusal(network@, *item, current@, now, stale_after_ms) == Some(
                reason@,
            ),
        },
{
    if text::is_some_text(&item.network_mode, "host") {
        return Err("Host-network traffic cannot be attributed to a named network".to_owned());
    }
    if item.networks.len() != 1 {
        return Err(
            text::concat3(
                "Container ",
                item.name.as_str(),
                " is attached to multiple named networks",
            ),
        );
    }
    let id = match &item.id {
        None => {
            return Err(text::concat3("Container ", item.name.as_str(), " has no Docker id"));
        },
        Some(id) => id,
    };
    let sample = match current.get(id.as_str()) {
        None => {
            return Err(
                text::concat3("Container ", item.name.as_str(), " has no current sample"),
            );
        },
        Some(Err(reason)) => {
            return Err(reason.clone());
        },
        Some(Ok(sample)) => sample,
    };
    if !text::same(sample.network.as_str(), network) {
        return Err(
            text::concat3(
                "Container ",
                item.name.as_str(),
                " changed network membership during measurement",
            ),
        );
    }
    if difference(now, sample.measured_at) > stale_after_ms {
        return Err(text::concat3("Container ", item.name.as_str(), " has a stale sample"));
    }
    Ok(sample)
}

fn rate_share(
    sample: &ContainerTrafficSample,
    id: &str,
    previous: &Registry<ContainerTrafficSample>,
) -> (share: Result<RateShare, String>)
    requires
        previous.well_formed(),
    ensures
        match (share, share_of(*sample, id@, previous@)) {
            (Ok(a), Ok(b)) => a == b,
            (Err(a), Err(b)) => a@ == b,
            _ => false,
        },
{
    let prior = match previous.get(id) {
        None => {
            return Err("Waiting for a second stable sample".to_owned());
        },
        Some(prior) => prior,
    };
    if !text::same(prior.network.as_str(), sample.network.as_str()) {
        return Err("Network membership changed since the previous sample".to_owned());
    }
    if sample.ingress_bytes < prior.ingress_bytes || sample.egress_bytes < prior.egress_bytes {
        return Err("A container network counter reset since the previous sample".to_owned());
    }
    if sample.measured_at <= prior.measured_at {
        return Err("The previous sample is not older than the current sample".to_owned());
    }
    let elapsed: i128 = sample.measured_at as i128 - prior.measured_at as i128;
    Ok(
        RateShare {
            ingress_bytes: sample.ingress_bytes - prior.ingress_bytes,
            egress_bytes: sample.egress_bytes - prior.egress_bytes,
            elapsed_ms: elapsed as u64,
        },
    )
}

/// The traffic of a network whose running containers are the contributors.
pub fn calculate_one_network(
    network: &str,
    contributors: &Vec<ContainerListItem>,
    current: &Registry<Result<ContainerTrafficSample, String>>,
    previous: &Registry<ContainerTrafficSample>,
    now: i64,
    stale_after_ms: i64,
) -> (usage: DockerNetworkUsage)
    requires
        current.well_formed(),
        previous.well_formed(),
    ensures
        tells(
            usage,
            traffic(network@, contributors@, current@, previous@, now, stale_after_ms),
            now,
        ),
{
    let mut ingress: u64 = 0;
    let mut egress: u64 = 0;
    let mut shares: Vec<RateShare> = Vec::new();
    let mut rate_reason: Option<String> = None;
    assert(contributors@.take(0) =~= Seq::<ContainerListItem>::empty());
    for i in 0..contributors.len()
        invariant
            current.well_formed(),
            previous.well_formed(),
            traffic(
                network@,
                contributors@.take(i as int),
                current@,
                previous@,
                now,
                stale_after_ms,
            ) == Ok::<Traffic, Seq<char>>(
                Traffic {
                    ingress,
                    egress,
                    rate: match rate_reason {
                        Some(reason) => Err(reason@),
                        None => Ok(shares@),
                    },
                },
            ),
    {
        proof {
            let more = contributors@.take(i + 1);
            assert(more.drop_last() =~= contributors@.take(i as int));
            assert(more.last() == contributors@[i as int]);
            if traffic(network@, more, current@, previous@, now, stale_after_ms) is Err {
                lemma_traffic_stops(
                    network@,
                    contributors@,
                    i + 1,
                    current@,
                    previous@,
                    now,
                    stale_after_ms,
                );
            }
        }
        let sample = match check_sample(network, &contributors[i], current, now, stale_after_ms) {
            Ok(sample) => sample,
            Err(reason) => {
                return unavailable_network(now, reason);
            },
        };
        ingress = match ingress.checked_add(sample.ingress_bytes) {
            None => {
                return unavailable_network(now, "Ingress byte counters overflowed".to_owned());
            },
            Some(sum) => sum,
        };
        egress = match egress.checked_add(sample.egress_bytes) {
            None => {
                return unavailable_network(now, "Egress byte counters overflowed".to_owned());
            },
            Some(sum) => sum,
        };
        if rate_reason.is_none() {
            match &contributors[i].id {
                Some(id) => match rate_share(sample, id.as_str(), previous) {
                    Ok(share) => {
                        shares.push(share);
                    },
                    Err(reason) => {
                        rate_reason = Some(reason);
                    },
                },
                None => {},
            }
        }
    }
    assert(contributors@.take(contributors@.len() as int) =~= contributors@);
    let available = rate_reason.is_none();
    DockerNetworkUsage {
        status: DockerMetricStatus::Available,
        ingress_bytes: Some(ingress),
        egress_bytes: Some(egress),
        measured_at: Some(now),
        unavailable_reason: None,
        rate_status: if available {
            DockerMetricStatus::Available
        } else {
            DockerMetricStatus::Unavailable
        },
        rate_shares: if available {
            Some(shares)
        } else {
            None
        },
        rate_unavailable_reason: rate_reason,
    }
}

/// The running containers in the network.
pub open spec fn members(containers: Seq<ContainerListItem>, network: Seq<char>) -> Seq<
    ContainerListItem,
>
    decreases containers.len(),
{
    if containers.len() == 0 {
        Seq::empty()
    } else {
        let before = members(containers.drop_last(), network);
        if containers.last().state == ContainerStateStatusEnum::Running && texts(
            containers.last().networks@,
        ).contains(network) {
            before.push(containers.last())
        } else {
            before
        }
    }
}

fn copy_opt(text: &Option<String>) -> (copy: Option<String>)
    ensures
        copy == *text,
{
    match text {
        Some(value) => Some(value.clone()),
        None => None,
    }
}

/// The containers tell the same about networks.
pub open spec fn same_attachments(a: ContainerListItem, b: ContainerListItem) -> bool {
    &&& a.id == b.id
    &&& a.name == b.name
    &&& a.state == b.state
    &&& a.network_mode == b.network_mode
    &&& a.networks@ == b.networks@
}

/// The lists tell the same about networks.
pub open spec fn all_same_attachments(a: Seq<ContainerListItem>, b: Seq<ContainerListItem>) -> bool {
    a.len() == b.len() && forall|i: int|
        0 <= i < a.len() ==> same_attachments(#[trigger] a[i], b[i])
}

fn members_of(containers: &Vec<ContainerListItem>, network: &str) -> (list: Vec<ContainerListItem>)
    ensures
        all_same_attachments(list@, members(containers@, network@)),
{
    let mut list: Vec<ContainerListItem> = Vec::new();
    assert(containers@.take(0) =~= Seq::<ContainerListItem>::empty());
    for i in 0..containers.len()
        invariant
            all_same_attachments(list@, members(containers@.take(i as int), network@)),
    {
        proof {
            assert(containers@.take(i + 1).drop_last() =~= containers@.take(i as int));
            assert(containers@.take(i + 1).last() == containers@[i as int]);
        }
        let item = &containers[i];
        if container::is_running(item) && text::contains_text(&item.networks, network) {
            list.push(
                ContainerListItem {
                    id: copy_opt(&item.id),
                    name: item.name.clone(),
                    state: item.state,
                    network_mode: copy_opt(&item.network_mode),
                    networks: text::clone_texts(&item.networks),
                    volumes: Vec::new(),
                    labels: Vec::new(),
                },
            );
        }
    }
    assert(containers@.take(containers@.len() as int) =~= containers@);
    list
}

proof fn lemma_same_traffic(
    network: Seq<char>,
    a: Seq<ContainerListItem>,
    b: Seq<ContainerListItem>,
    current: Map<Seq<char>, Result<ContainerTrafficSample, String>>,
    previous: Map<Seq<char>, ContainerTrafficSample>,
    now: i64,
    stale_after_ms: i64,
)
    requires
        all_same_attachments(a, b),
    ensures
        traffic(network, a, current, previous, now, stale_after_ms) == traffic(
            network,
            b,
            current,
            previous,
            now,
            stale_after_ms,
        ),
    decreases a.len(),
{
    if a.len() > 0 {
        assert(same_attachments(a[a.len() - 1], b[a.len() - 1]));
        assert forall|i: int| 0 <= i < a.drop_last().len() implies same_attachments(
            #[trigger] a.drop_last()[i],
            b.drop_last()[i],
        ) by {
            assert(same_attachments(a[i], b[i]));
        }
        lemma_same_traffic(
            network,
            a.drop_last(),
            b.drop_last(),
            current,
            previous,
            now,
            stale_after_ms,
        );
    }
}

/// The traffic of every network, from the containers that are in it.
pub fn calculate_network_usage(
    network_names: &Vec<String>,
    containers: &Vec<ContainerListItem>,
    current: &Registry<Result<ContainerTrafficSample, String>>,
    previous: &Registry<ContainerTrafficSample>,
    now: i64,
    stale_after_ms: i64,
) -> (usage: Registry<DockerNetworkUsage>)
    requires
        current.well_formed(),
        previous.well_formed(),
    ensures
        usage.well_formed(),
        forall|network: Seq<char>| #[trigger]
            usage@.dom().contains(network) <==> texts(network_names@).contains(network),
        forall|network: Seq<char>| #[trigger]
            usage@.dom().contains(network) ==> tells(
                usage@[network],
                traffic(
                    network,
                    members(containers@, network),
                    current@,
                    previous@,
                    now,
                    stale_after_ms,
                ),
                now,
            ),
{
    let mut usage: Registry<DockerNetworkUsage> = Registry::new();
    for i in 0..network_names.len()
        invariant
            current.well_formed(),
            previous.well_formed(),
            usage.well_formed(),
            forall|network: Seq<char>| #[trigger]
                usage@.dom().contains(network) <==> texts(
                    network_names@.take(i as int),
                ).contains(network),
            forall|network: Seq<char>| #[trigger]
                usage@.dom().contains(network) ==> tells(
                    usage@[network],
                    traffic(
                        network,
                        members(containers@, network),
                        current@,
                        previous@,
                        now,
                        stale_after_ms,
                    ),
                    now,
                ),
    {
        let ghost before = usage@;
        let name = network_names[i].as_str();
        let contributors = members_of(containers, name);
        let one = calculate_one_network(name, &contributors, current, previous, now, stale_after_ms);
        proof {
            lemma_same_traffic(
                name@,
                contributors@,
                members(containers@, name@),
                current@,
                previous@,
                now,
                stale_after_ms,
            );
        }
        usage.insert(network_names[i].clone(), one);
        proof {
            let list = texts(network_names@.take(i + 1));
            let prefix = texts(network_names@.take(i as int));
            assert(list =~= prefix.push(name@));
            assert forall|network: Seq<char>| #[trigger] usage@.dom().contains(network)
                <==> list.contains(network) by {
                if prefix.contains(network) {
                    let k = prefix.index_of(network);
                    assert(list[k] == network);
                }
                if network == name@ {
                    assert(list[i as int] == network);
                }
                if list.contains(network) && network != name@ {
                    let k = list.index_of(network);
                    assert(prefix[k] == network);
                }
            }
        }
    }
    assert(network_names@.take(network_names@.len() as int) =~= network_names@);
    usage
}

/// After a failed poll, nothing is known of the networks that were known.
pub fn store_poll_failure(
    snapshot: &Registry<DockerNetworkUsage>,
    reason: &str,
    measured_at: i64,
) -> (failed: Registry<DockerNetworkUsage>)
    requires
        snapshot.well_formed(),
    ensures
        failed.well_formed(),
        failed@.dom() == snapshot@.dom(),
        forall|network: Seq<char>| #[trigger]
            failed@.dom().contains(network) ==> tells(failed@[network], Err(reason@), measured_at),
{
    let mut failed: Registry<DockerNetworkUsage> = Registry::new();
    let mut i: usize = 0;
    while i < snapshot.len()
        invariant
            i <= snapshot.spec_len(),
            snapshot.well_formed(),
            failed.well_formed(),
            forall|network: Seq<char>| #[trigger]
                failed@.dom().contains(network) <==> exists|k: int|
                    0 <= k < i && #[trigger] snapshot.key_at(k) == network,
            forall|network: Seq<char>| #[trigger]
                failed@.dom().contains(network) ==> tells(
                    failed@[network],
                    Err(reason@),
                    measured_at,
                ),
        decreases snapshot.spec_len() - i,
    {
        let (key, _) = snapshot.entry_at(i);
        let ghost before = failed@;
        failed.insert(key.clone(), unavailable_network(measured_at, reason.to_owned()));
        proof {
            assert forall|network: Seq<char>| #[trigger] failed@.dom().contains(
                network,
            ) <==> exists|k: int|
                0 <= k < i + 1 && #[trigger] snapshot.key_at(k) == network by {
                if before.dom().contains(network) {
                    let k = choose|k: int|
                        0 <= k < i && #[trigger] snapshot.key_at(k) == network;
                    assert(snapshot.key_at(k) == network);
                }
                if network == key@ {
                    assert(snapshot.key_at(i as int) == network);
                }
            }
        }
        i = i + 1;
    }
    proof {
        snapshot.lemma_positions();
        assert forall|network: Seq<char>| failed@.dom().contains(network)
            == snapshot@.dom().contains(network) by {
            if snapshot@.dom().contains(network) {
                let k = choose|k: int|
                    0 <= k < snapshot.spec_len() && #[trigger] snapshot.key_at(k) == network;
                assert(snapshot.key_at(k) == network);
            }
        }
        assert(failed@.dom() =~= snapshot@.dom());
    }
    failed
}

/// What the rates of a network are made of.
pub open spec fn shares_of(usage: DockerNetworkUsage) -> Option<Seq<RateShare>> {
    match usage.rate_shares {
        Some(shares) => Some(shares@),
        None => None,
    }
}

/// Both tell the same of a network.
pub open spec fn tells_alike(a: DockerNetworkUsage, b: DockerNetworkUsage) -> bool {
    &&& a.status == b.status
    &&& a.ingress_bytes == b.ingress_bytes
    &&& a.egress_bytes == b.egress_bytes
    &&& a.measured_at == b.measured_at
    &&& a.unavailable_reason == b.unavailable_reason
    &&& a.rate_status == b.rate_status
    &&& shares_of(a) == shares_of(b)
    &&& a.rate_unavailable_reason == b.rate_unavailable_reason
}

/// The network has not been measured.
pub open spec fn is_pending(usage: DockerNetworkUsage) -> bool {
    usage == DockerNetworkUsage {
        status: DockerMetricStatus::Pending,
        ingress_bytes: None,
        egress_bytes: None,
        measured_at: None,
        unavailable_reason: None,
        rate_status: DockerMetricStatus::Pending,
        rate_shares: None,
        rate_unavailable_reason: None,
    }
}

fn copy_shares(shares: &Vec<RateShare>) -> (copy: Vec<RateShare>)
    ensures
        copy@ == shares@,
{
    let mut copy: Vec<RateShare> = Vec::new();
    for i in 0..shares.len()
        invariant
            copy@ == shares@.take(i as int),
    {
        copy.push(shares[i]);
        assert(shares@.take(i + 1) =~= shares@.take(i as int).push(shares@[i as int]));
    }
    assert(shares@.take(shares@.len() as int) =~= shares@);
    copy
}

/// The traffic of a network, as far as it is known.
pub fn network_usage(snapshot: &Registry<DockerNetworkUsage>, network_name: &str) -> (usage:
    DockerNetworkUsage)
    requires
        snapshot.well_formed(),
    ensures
        if snapshot@.dom().contains(network_name@) {
            tells_alike(usage, snapshot@[network_name@])
        } else {
            is_pending(usage)
        },
{
    match snapshot.get(network_name) {
        Some(usage) => DockerNetworkUsage {
            status: usage.status,
            ingress_bytes: usage.ingress_bytes,
            egress_bytes: usage.egress_bytes,
            measured_at: usage.measured_at,
            unavailable_reason: usage.unavailable_reason.clone(),
            rate_status: usage.rate_status,
            rate_shares: match &usage.rate_shares {
                Some(shares) => Some(copy_shares(shares)),
                None => None,
            },
            rate_unavailable_reason: usage.rate_unavailable_reason.clone(),
        },
        None => DockerNetworkUsage {
            status: DockerMetricStatus::Pending,
            ingress_bytes: None,
            egress_bytes: None,
            measured_at: None,
            unavailable_reason: None,
            rate_status: DockerMetricStatus::Pending,
            rate_shares: None,
            rate_unavailable_reason: None,
        },
    }
}

// ---------------------------------------------------------------------------
// Laws
// ---------------------------------------------------------------------------

proof fn lemma_traffic_needs_all(
    network: Seq<char>,
    contributors: Seq<ContainerListItem>,
    current: Map<Seq<char>, Result<ContainerTrafficSample, String>>,
    previous: Map<Seq<char>, ContainerTrafficSample>,
    now: i64,
    stale_after_ms: i64,
    i: int,
)
    requires
        0 <= i < contributors.len(),
        traffic(network, contributors, current, previous, now, stale_after_ms) is Ok,
    ensures
        sample_refusal(network, contributors[i], current, now, stale_after_ms) is None,
    decreases contributors.len(),
{
    if i < contributors.len() - 1 {
        lemma_traffic_needs_all(
            network,
            contributors.drop_last(),
            current,
            previous,
            now,
            stale_after_ms,
            i,
        );
    }
}

/// Totals are told only if every container of the network was measured: each
/// one belongs to this network alone and has a sample of it that is not stale.
pub proof fn totals_are_complete(
    network: Seq<char>,
    contributors: Seq<ContainerListItem>,
    current: Map<Seq<char>, Result<ContainerTrafficSample, String>>,
    previous: Map<Seq<char>, ContainerTrafficSample>,
    now: i64,
    stale_after_ms: i64,
    usage: DockerNetworkUsage,
    i: int,
)
    requires
        tells(
            usage,
            traffic(network, contributors, current, previous, now, stale_after_ms),
            now,
        ),
        usage.status == DockerMetricStatus::Available,
        0 <= i < contributors.len(),
    ensures
        contributors[i].networks@.len() == 1,
        contributors[i].id is Some,
        current.dom().contains(contributors[i].id->Some_0@),
        current[contributors[i].id->Some_0@] is Ok,
        sample_of(contributors[i], current).network@ == network,
        limited_difference(now, sample_of(contributors[i], current).measured_at) <= stale_after_ms,
{
    lemma_traffic_needs_all(network, contributors, current, previous, now, stale_after_ms, i);
}

/// Rates are told only if every container has an older sample of the same
/// network whose counters have not gone back.
pub proof fn rates_rest_on_two_samples(
    network: Seq<char>,
    contributors: Seq<ContainerListItem>,
    current: Map<Seq<char>, Result<ContainerTrafficSample, String>>,
    previous: Map<Seq<char>, ContainerTrafficSample>,
    now: i64,
    stale_after_ms: i64,
)
    ensures
        traffic(network, contributors, current, previous, now, stale_after_ms) matches Ok(sums)
            ==> (sums.rate matches Ok(shares) ==> shares.len() == contributors.len() && forall|
            i: int,
        |
            0 <= i < contributors.len() ==> share_of(
                sample_of(#[trigger] contributors[i], current),
                contributors[i].id->Some_0@,
                previous,
            ) == Ok::<RateShare, Seq<char>>(shares[i])),
    decreases contributors.len(),
{
    if contributors.len() > 0 {
        let rest = contributors.drop_last();
        rates_rest_on_two_samples(network, rest, current, previous, now, stale_after_ms);
        match traffic(network, contributors, current, previous, now, stale_after_ms) {
            Ok(sums) => match sums.rate {
                Ok(shares) => {
                    let before = traffic(
                        network,
                        rest,
                        current,
                        previous,
                        now,
                        stale_after_ms,
                    )->Ok_0.rate->Ok_0;
                    assert forall|i: int| 0 <= i < contributors.len() implies share_of(
                        sample_of(#[trigger] contributors[i], current),
                        contributors[i].id->Some_0@,
                        previous,
                    ) == Ok::<RateShare, Seq<char>>(shares[i]) by {
                        if i < rest.len() {
                            assert(contributors[i] == rest[i]);
                            assert(shares[i] == before[i]);
                        }
                    }
                },
                Err(_) => {},
            },
            Err(_) => {},
        }
    }
}

/// The container was measured twice, on the same network, and its counters have
/// grown meanwhile.
pub open spec fn measured_twice(
    item: ContainerListItem,
    current: Map<Seq<char>, Result<ContainerTrafficSample, String>>,
    previous: Map<Seq<char>, ContainerTrafficSample>,
) -> bool {
    &&& item.id is Some
    &&& current.dom().contains(item.id->Some_0@)
    &&& current[item.id->Some_0@] is Ok
    &&& previous.dom().contains(item.id->Some_0@)
    &&& ({
        let sample = current[item.id->Some_0@]->Ok_0;
        let prior = previous[item.id->Some_0@];
        &&& prior.network@ == sample.network@
        &&& prior.ingress_bytes <= sample.ingress_bytes
        &&& prior.egress_bytes <= sample.egress_bytes
        &&& prior.measured_at < sample.measured_at
    })
}

/// The share tells by how much the counters of a container have grown, and in what
/// time.
pub open spec fn is_growth(
    share: RateShare,
    prior: ContainerTrafficSample,
    sample: ContainerTrafficSample,
) -> bool {
    &&& prior.ingress_bytes + share.ingress_bytes == sample.ingress_bytes
    &&& prior.egress_bytes + share.egress_bytes == sample.egress_bytes
    &&& prior.measured_at + share.elapsed_ms == sample.measured_at
}

/// The rates of a network are made of one share for each of its containers: what
/// it received and sent between its two samples, and the time between just these
/// two samples.
pub proof fn rates_are_growth_over_time(
    network: Seq<char>,
    contributors: Seq<ContainerListItem>,
    current: Map<Seq<char>, Result<ContainerTrafficSample, String>>,
    previous: Map<Seq<char>, ContainerTrafficSample>,
    now: i64,
    stale_after_ms: i64,
    usage: DockerNetworkUsage,
    i: int,
)
    requires
        tells(
            usage,
            traffic(network, contributors, current, previous, now, stale_after_ms),
            now,
        ),
        usage.rate_shares is Some,
        0 <= i < contributors.len(),
    ensures
        usage.rate_status == DockerMetricStatus::Available,
        usage.rate_shares->Some_0@.len() == contributors.len(),
        measured_twice(contributors[i], current, previous),
        is_growth(
            usage.rate_shares->Some_0@[i],
            previous[contributors[i].id->Some_0@],
            current[contributors[i].id->Some_0@]->Ok_0,
        ),
{
    rates_rest_on_two_samples(network, contributors, current, previous, now, stale_after_ms);
    totals_are_complete(
        network,
        contributors,
        current,
        previous,
        now,
        stale_after_ms,
        usage,
        i,
    );
    assert(share_of(
        sample_of(contributors[i], current),
        contributors[i].id->Some_0@,
        previous,
    ) is Ok);
}

proof fn lemma_rates_are_known(
    network: Seq<char>,
    contributors: Seq<ContainerListItem>,
    current: Map<Seq<char>, Result<ContainerTrafficSample, String>>,
    previous: Map<Seq<char>, ContainerTrafficSample>,
    now: i64,
    stale_after_ms: i64,
)
    requires
        forall|i: int|
            0 <= i < contributors.len() ==> measured_twice(
                #[trigger] contributors[i],
                current,
                previous,
            ),
    ensures
        traffic(network, contributors, current, previous, now, stale_after_ms) matches Ok(sums)
            ==> sums.rate is Ok,
    decreases contributors.len(),
{
    if contributors.len() > 0 {
        let rest = contributors.drop_last();
        assert forall|i: int| 0 <= i < rest.len() implies measured_twice(
            #[trigger] rest[i],
            current,
            previous,
        ) by {
            assert(rest[i] == contributors[i]);
        }
        lemma_rates_are_known(network, rest, current, previous, now, stale_after_ms);
        assert(measured_twice(contributors[contributors.len() - 1], current, previous));
    }
}

/// Rates are told as soon as totals are and every container was measured twice.
pub proof fn rates_are_told_after_two_samples(
    network: Seq<char>,
    contributors: Seq<ContainerListItem>,
    current: Map<Seq<char>, Result<ContainerTrafficSample, String>>,
    previous: Map<Seq<char>, ContainerTrafficSample>,
    now: i64,
    stale_after_ms: i64,
    usage: DockerNetworkUsage,
)
    requires
        tells(
            usage,
            traffic(network, contributors, current, previous, now, stale_after_ms),
            now,
        ),
        usage.status == DockerMetricStatus::Available,
        forall|i: int|
            0 <= i < contributors.len() ==> measured_twice(
                #[trigger] contributors[i],
                current,
                previous,
            ),
    ensures
        usage.rate_status == DockerMetricStatus::Available,
        usage.rate_shares is Some,
{
    lemma_rates_are_known(network, contributors, current, previous, now, stale_after_ms);
}

/// What the containers received, all together.
pub open spec fn ingress_sum(
    contributors: Seq<ContainerListItem>,
    current: Map<Seq<char>, Result<ContainerTrafficSample, String>>,
) -> int {
    contributors.fold_left(
        0int,
        |sum: int, item: ContainerListItem| sum + current[item.id->Some_0@]->Ok_0.ingress_bytes,
    )
}

/// What the containers sent, all together.
pub open spec fn egress_sum(
    contributors: Seq<ContainerListItem>,
    current: Map<Seq<char>, Result<ContainerTrafficSample, String>>,
) -> int {
    contributors.fold_left(
        0int,
        |sum: int, item: ContainerListItem| sum + current[item.id->Some_0@]->Ok_0.egress_bytes,
    )
}

/// The container is measured for the network: it is in no other one, and its
/// sample is of this network and not stale.
pub open spec fn is_measured_for(
    network: Seq<char>,
    item: ContainerListItem,
    current: Map<Seq<char>, Result<ContainerTrafficSample, String>>,
    now: i64,
    stale_after_ms: i64,
) -> bool {
    &&& text::held(item.network_mode) != Some("host"@)
    &&& item.networks@.len() == 1
    &&& item.id is Some
    &&& current.dom().contains(item.id->Some_0@)
    &&& current[item.id->Some_0@] matches Ok(sample)
    &&& sample.network@ == network
    &&& now - sample.measured_at <= stale_after_ms || (stale_after_ms == i64::MAX)
}

proof fn lemma_totals_add_up(
    network: Seq<char>,
    contributors: Seq<ContainerListItem>,
    current: Map<Seq<char>, Result<ContainerTrafficSample, String>>,
    previous: Map<Seq<char>, ContainerTrafficSample>,
    now: i64,
    stale_after_ms: i64,
)
    ensures
        traffic(network, contributors, current, previous, now, stale_after_ms) matches Ok(sums)
            ==> sums.ingress == ingress_sum(contributors, current) && sums.egress == egress_sum(
            contributors,
            current,
        ),
    decreases contributors.len(),
{
    if contributors.len() > 0 {
        lemma_totals_add_up(
            network,
            contributors.drop_last(),
            current,
            previous,
            now,
            stale_after_ms,
        );
    }
}

proof fn lemma_sums_grow(
    contributors: Seq<ContainerListItem>,
    current: Map<Seq<char>, Result<ContainerTrafficSample, String>>,
)
    requires
        contributors.len() > 0,
    ensures
        0 <= ingress_sum(contributors.drop_last(), current) <= ingress_sum(contributors, current),
        0 <= egress_sum(contributors.drop_last(), current) <= egress_sum(contributors, current),
    decreases contributors.len(),
{
    let rest = contributors.drop_last();
    if rest.len() > 0 {
        lemma_sums_grow(rest, current);
    }
}

proof fn lemma_totals_are_known(
    network: Seq<char>,
    contributors: Seq<ContainerListItem>,
    current: Map<Seq<char>, Result<ContainerTrafficSample, String>>,
    previous: Map<Seq<char>, ContainerTrafficSample>,
    now: i64,
    stale_after_ms: i64,
)
    requires
        forall|i: int|
            0 <= i < contributors.len() ==> is_measured_for(
                network,
                #[trigger] contributors[i],
                current,
                now,
                stale_after_ms,
            ),
        ingress_sum(contributors, current) <= u64::MAX,
        egress_sum(contributors, current) <= u64::MAX,
    ensures
        traffic(network, contributors, current, previous, now, stale_after_ms) is Ok,
    decreases contributors.len(),
{
    if contributors.len() > 0 {
        let rest = contributors.drop_last();
        lemma_sums_grow(contributors, current);
        assert forall|i: int| 0 <= i < rest.len() implies is_measured_for(
            network,
            #[trigger] rest[i],
            current,
            now,
            stale_after_ms,
        ) by {
            assert(rest[i] == contributors[i]);
        }
        lemma_totals_are_known(network, rest, current, previous, now, stale_after_ms);
        lemma_totals_add_up(network, rest, current, previous, now, stale_after_ms);
        assert(is_measured_for(
            network,
            contributors[contributors.len() - 1],
            current,
            now,
            stale_after_ms,
        ));
    }
}

/// The totals of a network are the sums over all its containers. They are told
/// exactly when every one of them is measured and the sums can be held.
pub proof fn totals_are_sums(
    network: Seq<char>,
    contributors: Seq<ContainerListItem>,
    current: Map<Seq<char>, Result<ContainerTrafficSample, String>>,
    previous: Map<Seq<char>, ContainerTrafficSample>,
    now: i64,
    stale_after_ms: i64,
    usage: DockerNetworkUsage,
)
    requires
        tells(
            usage,
            traffic(network, contributors, current, previous, now, stale_after_ms),
            now,
        ),
    ensures
        usage.status == DockerMetricStatus::Available <==> (forall|i: int|
            0 <= i < contributors.len() ==> is_measured_for(
                network,
                #[trigger] contributors[i],
                current,
                now,
                stale_after_ms,
            )) && ingress_sum(contributors, current) <= u64::MAX && egress_sum(
            contributors,
            current,
        ) <= u64::MAX,
        usage.status == DockerMetricStatus::Available ==> usage.ingress_bytes == Some(
            ingress_sum(contributors, current) as u64,
        ) && usage.egress_bytes == Some(egress_sum(contributors, current) as u64),
{
    lemma_totals_add_up(network, contributors, current, previous, now, stale_after_ms);
    if usage.status == DockerMetricStatus::Available {
        assert forall|i: int| 0 <= i < contributors.len() implies is_measured_for(
            network,
            #[trigger] contributors[i],
            current,
            now,
            stale_after_ms,
        ) by {
            lemma_traffic_needs_all(
                network,
                contributors,
                current,
                previous,
                now,
                stale_after_ms,
                i,
            );
        }
    } else if (forall|i: int|
        0 <= i < contributors.len() ==> is_measured_for(
            network,
            #[trigger] contributors[i],
            current,
            now,
            stale_after_ms,
        )) && ingress_sum(contributors, current) <= u64::MAX && egress_sum(contributors, current)
        <= u64::MAX {
        lemma_totals_are_known(network, contributors, current, previous, now, stale_after_ms);
    }
}

/// The containers of a network are the running ones that are attached to it, all
/// of them and no others.
pub proof fn networks_count_their_running_containers(
    containers: Seq<ContainerListItem>,
    network: Seq<char>,
    item: ContainerListItem,
)
    ensures
        members(containers, network).contains(item) <==> containers.contains(item) && item.state
            == ContainerStateStatusEnum::Running && exists|k: int|
            0 <= k < item.networks@.len() && (#[trigger] item.networks@[k])@ == network,
        members(containers, network).len() <= containers.len(),
    decreases containers.len(),
{
    let attached = exists|k: int|
        0 <= k < item.networks@.len() && (#[trigger] item.networks@[k])@ == network;
    if attached {
        let k = choose|k: int|
            0 <= k < item.networks@.len() && (#[trigger] item.networks@[k])@ == network;
        assert(texts(item.networks@)[k] == network);
    }
    if texts(item.networks@).contains(network) {
        let k = texts(item.networks@).index_of(network);
        assert(item.networks@[k]@ == network);
    }
    assert(texts(item.networks@).contains(network) <==> attached);
    if containers.len() > 0 {
        let rest = containers.drop_last();
        let before = members(rest, network);
        let all = members(containers, network);
        networks_count_their_running_containers(rest, network, item);
        assert(containers =~= rest.push(containers.last()));
        if containers.contains(item) && !rest.contains(item) {
            let k = containers.index_of(item);
            if k < rest.len() {
                assert(rest[k] == item);
            }
            assert(item == containers.last());
        }
        if rest.contains(item) {
            let k = rest.index_of(item);
            assert(containers[k] == item);
        }
        if all.len() > before.len() {
            assert(all =~= before.push(containers.last()));
            if before.contains(item) {
                let k = before.index_of(item);
                assert(all[k] == item);
            }
            if item == containers.last() {
                assert(all[before.len() as int] == item);
            }
            if all.contains(item) && item != containers.last() {
                let k = all.index_of(item);
                assert(before[k] == item);
            }
        } else {
            assert(all == before);
            assert(item == containers.last() ==> !(item.state
                == ContainerStateStatusEnum::Running && attached));
        }
        assert(containers.last() == item ==> containers.contains(item)) by {
            if containers.last() == item {
                assert(containers[containers.len() - 1] == item);
            }
        }
    }
}

/// What the interfaces received, all together.
pub open spec fn received_sum(interfaces: Seq<InterfaceCounters>) -> int {
    interfaces.fold_left(0int, |sum: int, one: InterfaceCounters| sum + one.rx_bytes->Some_0)
}

/// What the interfaces sent, all together.
pub open spec fn sent_sum(interfaces: Seq<InterfaceCounters>) -> int {
    interfaces.fold_left(0int, |sum: int, one: InterfaceCounters| sum + one.tx_bytes->Some_0)
}

/// The counters of a container are the sums over all its interfaces. They are
/// known exactly when every interface has both counters and the sums can be held.
pub proof fn counters_add_up(interfaces: Seq<InterfaceCounters>)
    ensures
        ({
            let ingress = received_sum(interfaces);
            let egress = sent_sum(interfaces);
            let counted = forall|i: int|
                0 <= i < interfaces.len() ==> (#[trigger] interfaces[i]).rx_bytes is Some
                    && interfaces[i].tx_bytes is Some;
            &&& 0 <= ingress && 0 <= egress
            &&& counter_sums(interfaces) is Ok <==> counted && ingress <= u64::MAX && egress
                <= u64::MAX
            &&& counter_sums(interfaces) matches Ok((rx, tx)) ==> rx == ingress && tx == egress
        }),
    decreases interfaces.len(),
{
    if interfaces.len() > 0 {
        let rest = interfaces.drop_last();
        counters_add_up(rest);
        if counter_sums(interfaces) is Ok {
            assert forall|i: int| 0 <= i < interfaces.len() implies (
            #[trigger] interfaces[i]).rx_bytes is Some && interfaces[i].tx_bytes is Some by {
                if i < rest.len() {
                    assert(rest[i] == interfaces[i]);
                }
            }
        } else if forall|i: int|
            0 <= i < interfaces.len() ==> (#[trigger] interfaces[i]).rx_bytes is Some
                && interfaces[i].tx_bytes is Some {
            assert forall|i: int| 0 <= i < rest.len() implies (#[trigger] rest[i]).rx_bytes is Some
                && rest[i].tx_bytes is Some by {
                assert(rest[i] == interfaces[i]);
            }
            assert(interfaces[interfaces.len() - 1] == interfaces.last());
        }
    }
}

} // verus!
