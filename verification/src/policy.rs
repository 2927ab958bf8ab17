//! How much the machine may log, as the control plane says in its answers.
use vstd::prelude::*;
use vstd::string::*;

use crate::http::HttpResponse;
use crate::numbers::NumberError;
use crate::{http, numbers, text};

verus! {

/// The header with one limit for everything.
pub const AGENT_LOG_MAX_MIB_HEADER: &'static str = "x-brocade-log-max-mib";

/// The header with the limit of the agent's own journal.
pub const AGENT_JOURNAL_MAX_MIB_HEADER: &'static str = "x-brocade-agent-journal-max-mib";

/// The header with the limit of the proxy's log.
pub const XRAY_LOG_MAX_MIB_HEADER: &'static str = "x-brocade-xray-log-max-mib";

/// The header with the limit of each log of the disguise layer.
pub const PHANTUN_LOG_MAX_MIB_HEADER: &'static str = "x-brocade-phantun-log-max-mib";

/// The limits, in MiB.
#[derive(Debug, Clone, Copy, PartialEq, Eq, Structural)]
pub struct LogPolicy {
    pub agent_journal_mib: u32,
    pub xray_mib: u32,
    pub phantun_mib: u32,
}

/// Why an answer's limits cannot be used.
#[derive(Debug, PartialEq, Eq)]
pub enum PolicyError {
    /// A header is no number.
    Unreadable { name: &'static str, raw: String, cause: NumberError },
    /// A limit is neither given for its workload nor for everything.
    Missing { name: &'static str },
}

/// What a header says.
pub open spec fn limit_in(headers: Seq<(Seq<char>, Seq<char>)>, name: Seq<char>) -> Result<
    Option<u32>,
    (Seq<char>, NumberError),
> {
    match http::header_of(headers, text::lower(name)) {
        None => Ok(None),
        Some(raw) => match numbers::parse_unsigned(raw, 10, u32::MAX as int) {
            Ok(v) => Ok(Some(v as u32)),
            Err(cause) => Err((raw, cause)),
        },
    }
}

/// What a header says.
pub fn log_limit_header(response: &HttpResponse, name: &'static str) -> (r: Result<
    Option<u32>,
    PolicyError,
>)
    ensures
        match limit_in(http::header_views(response.headers@), name@) {
            Ok(limit) => r == Ok::<Option<u32>, PolicyError>(limit),
            Err((said, why)) => r matches Err(PolicyError::Unreadable { name: n, raw, cause })
                && n@ == name@ && raw@ == said && cause == why,
        },
{
    match response.header(name) {
        None => Ok(None),
        Some(raw) => {
            let chars = text::chars_of(raw);
            match numbers::read_unsigned(chars.as_slice(), 10, u32::MAX as u64) {
                Ok(v) => Ok(Some(v as u32)),
                Err(cause) => Err(PolicyError::Unreadable { name, raw: raw.to_owned(), cause }),
            }
        },
    }
}

/// A limit for one workload, or else the one for everything.
pub open spec fn own_or_common(own: Option<u32>, common: Option<u32>) -> Option<u32> {
    match own {
        Some(_) => own,
        None => common,
    }
}

/// The limits that four headers give together. The one for everything stands in for any
/// that is not given; where nothing is given there is no policy.
pub open spec fn policy_of(
    common: Option<u32>,
    agent: Option<u32>,
    xray: Option<u32>,
    phantun: Option<u32>,
) -> Result<Option<LogPolicy>, Seq<char>> {
    if common is None && agent is None && xray is None && phantun is None {
        Ok(None)
    } else {
        match own_or_common(agent, common) {
            None => Err(AGENT_JOURNAL_MAX_MIB_HEADER@),
            Some(agent_journal_mib) => match own_or_common(xray, common) {
                None => Err(XRAY_LOG_MAX_MIB_HEADER@),
                Some(xray_mib) => match own_or_common(phantun, common) {
                    None => Err(PHANTUN_LOG_MAX_MIB_HEADER@),
                    Some(phantun_mib) => Ok(
                        Some(LogPolicy { agent_journal_mib, xray_mib, phantun_mib }),
                    ),
                },
            },
        }
    }
}

fn pick(own: Option<u32>, common: Option<u32>) -> (r: Option<u32>)
    ensures
        r == own_or_common(own, common),
{
    match own {
        Some(v) => Some(v),
        None => common,
    }
}

/// The limits that headers give together.
pub fn log_policy(
    common: Option<u32>,
    agent: Option<u32>,
    xray: Option<u32>,
    phantun: Option<u32>,
) -> (r: Result<Option<LogPolicy>, PolicyError>)
    ensures
        match policy_of(common, agent, xray, phantun) {
            Ok(policy) => r == Ok::<Option<LogPolicy>, PolicyError>(policy),
            Err(missing) => r matches Err(PolicyError::Missing { name }) && name@ == missing,
        },
{
    if common.is_none() && agent.is_none() && xray.is_none() && phantun.is_none() {
        return Ok(None);
    }
    let agent_journal_mib: u32 = match pick(agent, common) {
        Some(v) => v,
        None => {
            return Err(PolicyError::Missing { name: AGENT_JOURNAL_MAX_MIB_HEADER });
        },
    };
    let xray_mib: u32 = match pick(xray, common) {
        Some(v) => v,
        None => {
            return Err(PolicyError::Missing { name: XRAY_LOG_MAX_MIB_HEADER });
        },
    };
    let phantun_mib: u32 = match pick(phantun, common) {
        Some(v) => v,
        None => {
            return Err(PolicyError::Missing { name: PHANTUN_LOG_MAX_MIB_HEADER });
        },
    };
    Ok(Some(LogPolicy { agent_journal_mib, xray_mib, phantun_mib }))
}

/// The limits that an answer gives. A header that is no number spoils the answer, even
/// where the other headers would do.
pub fn log_policy_from_response(response: &HttpResponse) -> (r: Result<
    Option<LogPolicy>,
    PolicyError,
>)
    ensures
        ({
            let headers = http::header_views(response.headers@);
            let common = limit_in(headers, AGENT_LOG_MAX_MIB_HEADER@);
            let agent = limit_in(headers, AGENT_JOURNAL_MAX_MIB_HEADER@);
            let xray = limit_in(headers, XRAY_LOG_MAX_MIB_HEADER@);
            let phantun = limit_in(headers, PHANTUN_LOG_MAX_MIB_HEADER@);
            match (common, agent, xray, phantun) {
                (Ok(c), Ok(a), Ok(x), Ok(p)) => match policy_of(c, a, x, p) {
                    Ok(policy) => r == Ok::<Option<LogPolicy>, PolicyError>(policy),
                    Err(missing) => r matches Err(PolicyError::Missing { name }) && name@
                        == missing,
                },
                (Err(e), _, _, _) => unreadable(r, AGENT_LOG_MAX_MIB_HEADER@, e),
                (_, Err(e), _, _) => unreadable(r, AGENT_JOURNAL_MAX_MIB_HEADER@, e),
                (_, _, Err(e), _) => unreadable(r, XRAY_LOG_MAX_MIB_HEADER@, e),
                (_, _, _, Err(e)) => unreadable(r, PHANTUN_LOG_MAX_MIB_HEADER@, e),
            }
        }),
{
    let common = match log_limit_header(response, AGENT_LOG_MAX_MIB_HEADER) {
        Ok(limit) => limit,
        Err(e) => {
            return Err(e);
        },
    };
    let agent = match log_limit_header(response, AGENT_JOURNAL_MAX_MIB_HEADER) {
        Ok(limit) => limit,
        Err(e) => {
            return Err(e);
        },
    };
    let xray = match log_limit_header(response, XRAY_LOG_MAX_MIB_HEADER) {
        Ok(limit) => limit,
        Err(e) => {
            return Err(e);
        },
    };
    let phantun = match log_limit_header(response, PHANTUN_LOG_MAX_MIB_HEADER) {
        Ok(limit) => limit,
        Err(e) => {
            return Err(e);
        },
    };
    log_policy(common, agent, xray, phantun)
}

/// Whether an answer was refused for a header that is no number.
pub open spec fn unreadable(
    r: Result<Option<LogPolicy>, PolicyError>,
    header: Seq<char>,
    why: (Seq<char>, NumberError),
) -> bool {
    r matches Err(PolicyError::Unreadable { name, raw, cause }) && name@ == header && raw@ == why.0
        && cause == why.1
}

/// What is said of a limit that is missing.
pub fn missing_limit(name: &str) -> (r: String)
    ensures
        r@ == name@ + " 缺失且没有旧版统一上限可回退"@,
{
    let mut out = name.to_owned();
    out.append(" 缺失且没有旧版统一上限可回退");
    out
}

/// A control plane that gives only the one limit gives it to every workload, and one
/// that gives every workload its own need not give the one.
pub proof fn lemma_old_and_new_control_planes_are_understood(
    common: u32,
    agent: u32,
    xray: u32,
    phantun: u32,
    also: Option<u32>,
)
    ensures
        policy_of(Some(common), None, None, None) == Ok::<Option<LogPolicy>, Seq<char>>(
            Some(
                LogPolicy {
                    agent_journal_mib: common,
                    xray_mib: common,
                    phantun_mib: common,
                },
            ),
        ),
        policy_of(also, Some(agent), Some(xray), Some(phantun)) == Ok::<
            Option<LogPolicy>,
            Seq<char>,
        >(Some(LogPolicy { agent_journal_mib: agent, xray_mib: xray, phantun_mib: phantun })),
{
}

/// Each workload gets its own limit where it is given one, and else the one for everything,
/// whatever the others get. Where nothing at all is given there is no policy, and where some
/// workload is left without any limit the answer is refused.
pub proof fn lemma_each_workload_gets_its_limit(
    common: Option<u32>,
    agent: Option<u32>,
    xray: Option<u32>,
    phantun: Option<u32>,
)
    ensures
        ({
            let nothing = common is None && agent is None && xray is None && phantun is None;
            let policy = policy_of(common, agent, xray, phantun);
            &&& policy is Err <==> !nothing && common is None && (agent is None || xray is None
                || phantun is None)
            &&& policy == Ok::<Option<LogPolicy>, Seq<char>>(None) <==> nothing
            &&& policy matches Ok(Some(p)) ==> {
                &&& agent is Some ==> agent == Some(p.agent_journal_mib)
                &&& agent is None ==> common == Some(p.agent_journal_mib)
                &&& xray is Some ==> xray == Some(p.xray_mib)
                &&& xray is None ==> common == Some(p.xray_mib)
                &&& phantun is Some ==> phantun == Some(p.phantun_mib)
                &&& phantun is None ==> common == Some(p.phantun_mib)
            }
        }),
{
}

/// A limit is the number in the last header of its name, and there is none without one.
pub proof fn lemma_limit_is_the_number_told(
    headers: Seq<(Seq<char>, Seq<char>)>,
    name: Seq<char>,
    mib: u32,
)
    ensures
        limit_in(
            headers.push((text::lower(name), numbers::decimal(mib as int))),
            name,
        ) == Ok::<Option<u32>, (Seq<char>, NumberError)>(Some(mib)),
        (forall|i: int|
            0 <= i < headers.len() ==> (#[trigger] headers[i]).0 != text::lower(name)) ==> limit_in(
            headers,
            name,
        ) == Ok::<Option<u32>, (Seq<char>, NumberError)>(None),
{
    let more = headers.push((text::lower(name), numbers::decimal(mib as int)));
    numbers::lemma_parse_decimal(mib as int, u32::MAX as int);
    assert(more[more.len() - 1] == (text::lower(name), numbers::decimal(mib as int)));
    http::lemma_last_header_counts(more, text::lower(name), more.len() - 1);
    http::lemma_last_header_counts(headers, text::lower(name), headers.len() - 1);
}

} // verus!
