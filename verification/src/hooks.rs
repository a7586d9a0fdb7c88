//! Hook aggregation.
//!
//! Hooks do not project file-by-file: the engine rebuilds, per
//! application, an in-memory structure grouping the rules of every
//! enabled hook by event type in priority order, and the surrounding
//! program writes that structure into a well-known key of the
//! application's shared settings document, fully replacing the key's
//! prior content.  The official client format — one document holding one
//! rule array per event name — is fanned out into one metadata record per
//! supported event.

use vstd::prelude::*;

use crate::apps::AppType;
use crate::database::ResourceTable;
use crate::resources::{HookEventType, HookFileMetadata};
use crate::strutil::push_char;

verus! {

/// One command of an official-format rule.
#[derive(Clone, Debug)]
pub struct OfficialHookCommand {
    pub cmd_type: String,
    pub command: Option<String>,
    pub timeout: Option<u64>,
}

/// One rule of an official-format document: a matcher and its commands.
#[derive(Clone, Debug)]
pub struct OfficialHookRule {
    pub matcher: Option<String>,
    pub hooks: Vec<OfficialHookCommand>,
}

/// The rules of one event name in an official-format document.
#[derive(Clone, Debug)]
pub struct OfficialHookEvent {
    pub event: String,
    pub rules: Vec<OfficialHookRule>,
}

/// An official-format hooks document: one rule array per event name.
#[derive(Clone, Debug)]
pub struct OfficialHooksFormat {
    pub hooks: Option<Vec<OfficialHookEvent>>,
}

/// The escape of one character inside a JSON string literal.
pub open spec fn spec_escape_char(c: char) -> Seq<char> {
    if c == '"' {
        seq!['\\', '"']
    } else if c == '\\' {
        seq!['\\', '\\']
    } else if c == '\n' {
        seq!['\\', 'n']
    } else if c == '\r' {
        seq!['\\', 'r']
    } else if c == '\t' {
        seq!['\\', 't']
    } else if (c as u32) < 32 {
        seq!['\\', 'u', '0', '0', crate::hashing::hex_digit(((c as u32) / 16) as u8), crate::hashing::hex_digit(((c as u32) % 16) as u8)]
    } else {
        seq![c]
    }
}

/// The body of a JSON string literal holding exactly the characters of
/// `s`.
pub open spec fn spec_json_escape(s: Seq<char>) -> Seq<char>
    decreases s.len(),
{
    if s.len() == 0 {
        Seq::<char>::empty()
    } else {
        spec_escape_char(s[0]) + spec_json_escape(s.subrange(1, s.len() as int))
    }
}

/// Escape a text for inclusion in a JSON string literal.
pub fn json_escape(s: &str) -> (r: String)
    ensures
        r@ == spec_json_escape(s@),
{
    let n = s.unicode_len();
    let mut out = String::new();
    let mut i: usize = 0;
    proof {
        assert(s@.subrange(0, n as int) =~= s@);
    }
    while i < n
        invariant
            i <= n,
            n == s@.len(),
            spec_json_escape(s@) =~= out@ + spec_json_escape(s@.subrange(i as int, n as int)),
        decreases n - i,
    {
        let c = s.get_char(i);
        let ghost rest = s@.subrange(i as int, n as int);
        proof {
            assert(rest[0] == s@[i as int]);
            assert(rest.subrange(1, rest.len() as int) =~= s@.subrange(i + 1, n as int));
        }
        if c == '"' {
            push_char(&mut out, '\\');
            push_char(&mut out, '"');
        } else if c == '\\' {
            push_char(&mut out, '\\');
            push_char(&mut out, '\\');
        } else if c == '\n' {
            push_char(&mut out, '\\');
            push_char(&mut out, 'n');
        } else if c == '\r' {
            push_char(&mut out, '\\');
            push_char(&mut out, 'r');
        } else if c == '\t' {
            push_char(&mut out, '\\');
            push_char(&mut out, 't');
        } else if (c as u32) < 32 {
            push_char(&mut out, '\\');
            push_char(&mut out, 'u');
            push_char(&mut out, '0');
            push_char(&mut out, '0');
            let code = c as u32;
            push_char(&mut out, crate::hashing::hex_digit_char((code / 16) as u8));
            push_char(&mut out, crate::hashing::hex_digit_char((code % 16) as u8));
        } else {
            push_char(&mut out, c);
        }
        proof {
            assert(spec_escape_char(c).len() >= 1);
        }
        i += 1;
    }
    out
}

/// The JSON object of one official command, or nothing when the command
/// type is unsupported or the text is missing.
pub open spec fn spec_cmd_json(c: OfficialHookCommand) -> Option<Seq<char>> {
    if c.cmd_type@ == "command"@ && c.command is Some {
        Some(
            "{\"type\":\"command\",\"command\":\""@ + spec_json_escape(c.command->0@)
                + "\"}"@,
        )
    } else if c.cmd_type@ == "prompt"@ && c.command is Some {
        Some(
            "{\"type\":\"prompt\",\"prompt\":\""@ + spec_json_escape(c.command->0@) + "\"}"@,
        )
    } else {
        None
    }
}

/// The JSON objects of a command list, unsupported entries dropped.
pub open spec fn spec_cmds_json(cs: Seq<OfficialHookCommand>) -> Seq<Seq<char>>
    decreases cs.len(),
{
    if cs.len() == 0 {
        Seq::<Seq<char>>::empty()
    } else {
        (match spec_cmd_json(cs[0]) {
            Some(t) => seq![t],
            None => Seq::<Seq<char>>::empty(),
        }) + spec_cmds_json(cs.subrange(1, cs.len() as int))
    }
}

/// Texts joined by commas.
pub open spec fn spec_join_comma(parts: Seq<Seq<char>>) -> Seq<char>
    decreases parts.len(),
{
    if parts.len() == 0 {
        Seq::<char>::empty()
    } else if parts.len() == 1 {
        parts[0]
    } else {
        parts[0] + seq![','] + spec_join_comma(parts.subrange(1, parts.len() as int))
    }
}

/// The JSON object of one official rule.
pub open spec fn spec_rule_json(r: OfficialHookRule) -> Seq<char> {
    let matcher = match r.matcher {
        Some(m) => m@,
        None => Seq::<char>::empty(),
    };
    "{\"matcher\":\""@ + spec_json_escape(matcher) + "\",\"hooks\":["@ + spec_join_comma(
        spec_cmds_json(r.hooks@),
    ) + "]}"@
}

/// The JSON array of an official rule list.
pub open spec fn spec_rules_json(rs: Seq<OfficialHookRule>) -> Seq<char>
    decreases rs.len(),
{
    "["@ + spec_join_rules(rs) + "]"@
}

/// The rule objects joined by commas.
pub open spec fn spec_join_rules(rs: Seq<OfficialHookRule>) -> Seq<char>
    decreases rs.len(),
{
    if rs.len() == 0 {
        Seq::<char>::empty()
    } else if rs.len() == 1 {
        spec_rule_json(rs[0])
    } else {
        spec_rule_json(rs[0]) + seq![','] + spec_join_rules(rs.subrange(1, rs.len() as int))
    }
}

/// Render one official rule as JSON text.
fn rule_json_text(r: &OfficialHookRule) -> (out: String)
    ensures
        out@ == spec_rule_json(*r),
{
    proof {
        reveal_strlit("{\"matcher\":\"");
        reveal_strlit("\",\"hooks\":[");
        reveal_strlit("]}");
        reveal_strlit("command");
        reveal_strlit("prompt");
        reveal_strlit("{\"type\":\"command\",\"command\":\"");
        reveal_strlit("{\"type\":\"prompt\",\"prompt\":\"");
        reveal_strlit("\"}");
    }
    let mut out = String::from_str("{\"matcher\":\"");
    let escaped = match &r.matcher {
        Some(m) => json_escape(m.as_str()),
        None => String::new(),
    };
    out.append(escaped.as_str());
    out.append("\",\"hooks\":[");
    let n = r.hooks.len();
    let mut first = true;
    let mut body = String::new();
    let mut i: usize = 0;
    proof {
        assert(r.hooks@.subrange(0, n as int) =~= r.hooks@);
    }
    while i < n
        invariant
            i <= n,
            n == r.hooks@.len(),
            spec_join_comma(spec_cmds_json(r.hooks@)) =~= body@ + (if first {
                spec_join_comma(spec_cmds_json(r.hooks@.subrange(i as int, n as int)))
            } else {
                (if spec_cmds_json(r.hooks@.subrange(i as int, n as int)).len() > 0 {
                    seq![','] + spec_join_comma(
                        spec_cmds_json(r.hooks@.subrange(i as int, n as int)),
                    )
                } else {
                    Seq::<char>::empty()
                })
            }),
            first ==> body@.len() == 0,
        decreases n - i,
    {
        proof {
            reveal_strlit("command");
            reveal_strlit("prompt");
            reveal_strlit("{\"type\":\"command\",\"command\":\"");
            reveal_strlit("{\"type\":\"prompt\",\"prompt\":\"");
            reveal_strlit("\"}");
        }
        let c = &r.hooks[i];
        let ghost rest = r.hooks@.subrange(i as int, n as int);
        proof {
            assert(rest[0] == r.hooks@[i as int]);
            assert(rest.subrange(1, rest.len() as int) =~= r.hooks@.subrange(i + 1, n as int));
        }
        let is_command = crate::strutil::eq_str(c.cmd_type.as_str(), "command");
        let is_prompt = crate::strutil::eq_str(c.cmd_type.as_str(), "prompt");
        let piece: Option<String> = if is_command {
            match &c.command {
                Some(text) => {
                    let mut p = String::from_str("{\"type\":\"command\",\"command\":\"");
                    let e = json_escape(text.as_str());
                    p.append(e.as_str());
                    p.append("\"}");
                    Some(p)
                },
                None => None,
            }
        } else if is_prompt {
            match &c.command {
                Some(text) => {
                    let mut p = String::from_str("{\"type\":\"prompt\",\"prompt\":\"");
                    let e = json_escape(text.as_str());
                    p.append(e.as_str());
                    p.append("\"}");
                    Some(p)
                },
                None => None,
            }
        } else {
            None
        };
        proof {
            let tailcmds = spec_cmds_json(r.hooks@.subrange(i + 1, n as int));
            match &piece {
                Some(p) => {
                    assert(spec_cmd_json(rest[0]) == Some(p@));
                    assert(spec_cmds_json(rest) =~= seq![p@] + tailcmds);
                    assert((seq![p@] + tailcmds).subrange(
                        1,
                        (1 + tailcmds.len()) as int,
                    ) =~= tailcmds);
                },
                None => {
                    assert(spec_cmd_json(rest[0]) is None);
                    assert(spec_cmds_json(rest) =~= tailcmds);
                },
            }
        }
        match piece {
            Some(p) => {
                if !first {
                    push_char(&mut body, ',');
                }
                body.append(p.as_str());
                first = false;
            },
            None => {},
        }
        i += 1;
    }
    proof {
        assert(spec_cmds_json(r.hooks@.subrange(n as int, n as int)) =~= Seq::<
            Seq<char>,
        >::empty());
    }
    out.append(body.as_str());
    out.append("]}");
    assert(out@ =~= spec_rule_json(*r));
    out
}

/// Render an official rule list as a JSON array.
fn rules_json_text(rs: &Vec<OfficialHookRule>) -> (out: String)
    ensures
        out@ == spec_rules_json(rs@),
{
    proof {
        reveal_strlit("[");
        reveal_strlit("]");
    }
    let mut out = String::from_str("[");
    let n = rs.len();
    let mut i: usize = 0;
    let mut body = String::new();
    proof {
        assert(rs@.subrange(0, n as int) =~= rs@);
    }
    while i < n
        invariant
            i <= n,
            n == rs@.len(),
            spec_join_rules(rs@) =~= body@ + (if i == 0 {
                spec_join_rules(rs@.subrange(i as int, n as int))
            } else {
                (if i < n {
                    seq![','] + spec_join_rules(rs@.subrange(i as int, n as int))
                } else {
                    Seq::<char>::empty()
                })
            }),
            i == 0 ==> body@.len() == 0,
        decreases n - i,
    {
        let ghost rest = rs@.subrange(i as int, n as int);
        proof {
            assert(rest[0] == rs@[i as int]);
            assert(rest.subrange(1, rest.len() as int) =~= rs@.subrange(i + 1, n as int));
        }
        if i > 0 {
            push_char(&mut body, ',');
        }
        let piece = rule_json_text(&rs[i]);
        body.append(piece.as_str());
        i += 1;
    }
    out.append(body.as_str());
    out.append("]");
    assert(out@ =~= spec_rules_json(rs@));
    out
}

/// The fan-out of an official document: one entry per supported event
/// name with at least one rule, in document order, carrying the event
/// and its rules rendered as a JSON array.
pub open spec fn spec_hook_fanout(events: Seq<OfficialHookEvent>) -> Seq<
    (HookEventType, Seq<char>),
>
    decreases events.len(),
{
    if events.len() == 0 {
        Seq::<(HookEventType, Seq<char>)>::empty()
    } else {
        let head = events[0];
        let rest = spec_hook_fanout(events.subrange(1, events.len() as int));
        if (exists|e: HookEventType| e.spec_name() == head.event@) && head.rules@.len() > 0 {
            let e = choose|e: HookEventType| e.spec_name() == head.event@;
            seq![(e, spec_rules_json(head.rules@))] + rest
        } else {
            rest
        }
    }
}

impl OfficialHooksFormat {
    /// Fan an official document out into one metadata record per
    /// supported event name, skipping unsupported names and empty rule
    /// arrays; each record carries the event's rules as JSON text, the
    /// default priority, and global enablement.
    pub fn to_hook_metadata_list(&self) -> (r: Vec<(HookEventType, HookFileMetadata)>)
        ensures
            ({
                let fan = match self.hooks {
                    Some(events) => spec_hook_fanout(events@),
                    None => Seq::<(HookEventType, Seq<char>)>::empty(),
                };
                &&& r@.len() == fan.len()
                &&& forall|k: int|
                    0 <= k < r@.len() ==> (#[trigger] r@[k]).0 == fan[k].0 && r@[k].1.event_type
                        == Some(fan[k].0) && (r@[k].1.rules_json matches Some(t) && t@
                        == fan[k].1) && r@[k].1.name is None && r@[k].1.description is None
                        && r@[k].1.priority == 100 && r@[k].1.enabled
            }),
    {
        let events = match &self.hooks {
            Some(events) => events,
            None => {
                return Vec::new();
            },
        };
        let n = events.len();
        let mut out: Vec<(HookEventType, HookFileMetadata)> = Vec::new();
        let ghost fan = spec_hook_fanout(events@);
        let mut i: usize = 0;
        proof {
            assert(events@.subrange(0, n as int) =~= events@);
        }
        while i < n
            invariant
                i <= n,
                n == events@.len(),
                fan == spec_hook_fanout(events@),
                fan =~= spec_fan_prefix(out@) + spec_hook_fanout(
                    events@.subrange(i as int, n as int),
                ),
                forall|k: int|
                    0 <= k < out@.len() ==> (#[trigger] out@[k]).1.event_type == Some(
                        out@[k].0,
                    ) && (out@[k].1.rules_json is Some) && out@[k].1.name is None
                        && out@[k].1.description is None && out@[k].1.priority == 100
                        && out@[k].1.enabled,
            decreases n - i,
        {
            let ghost rest = events@.subrange(i as int, n as int);
            proof {
                assert(rest[0] == events@[i as int]);
                assert(rest.subrange(1, rest.len() as int) =~= events@.subrange(
                    i + 1,
                    n as int,
                ));
            }
            let head = &events[i];
            let parsed = HookEventType::parse(head.event.as_str());
            match parsed {
                Some(e) => {
                    if head.rules.len() > 0 {
                        let text = rules_json_text(&head.rules);
                        let ghost prev = out@;
                        out.push(
                            (
                                e,
                                HookFileMetadata {
                                    name: None,
                                    description: None,
                                    event_type: Some(e),
                                    rules_json: Some(text),
                                    priority: 100,
                                    enabled: true,
                                },
                            ),
                        );
                        proof {
                            assert(exists|e2: HookEventType| e2.spec_name() == head.event@);
                            let ec = choose|e2: HookEventType|
                                e2.spec_name() == head.event@;
                            assert(ec == e) by {
                                lemma_event_name_unique(ec, e);
                            }
                            assert(out@.drop_last() =~= prev);
                            assert(spec_fan_prefix(out@) =~= spec_fan_prefix(prev).push(
                                (e, spec_rules_json(head.rules@)),
                            ));
                            assert(spec_hook_fanout(rest) =~= seq![
                                (e, spec_rules_json(head.rules@)),
                            ] + spec_hook_fanout(events@.subrange(i + 1, n as int)));
                        }
                    }
                },
                None => {
                    proof {
                        assert(!(exists|e: HookEventType| e.spec_name() == head.event@));
                    }
                },
            }
            i += 1;
        }
        proof {
            assert(spec_hook_fanout(events@.subrange(n as int, n as int)) =~= Seq::<
                (HookEventType, Seq<char>),
            >::empty());
            assert(fan =~= spec_fan_prefix(out@));
            lemma_fan_prefix_index(out@);
        }
        out
    }
}

/// The spec-level shadow of a fan-out result indexes element-wise.
proof fn lemma_fan_prefix_index(out: Seq<(HookEventType, HookFileMetadata)>)
    ensures
        spec_fan_prefix(out).len() == out.len(),
        forall|k: int|
            0 <= k < out.len() ==> #[trigger] spec_fan_prefix(out)[k] == (
                out[k].0,
                match out[k].1.rules_json {
                    Some(t) => t@,
                    None => Seq::<char>::empty(),
                },
            ),
    decreases out.len(),
{
    if out.len() > 0 {
        lemma_fan_prefix_index(out.drop_last());
        assert forall|k: int|
            0 <= k < out.len() implies #[trigger] spec_fan_prefix(out)[k] == (
            out[k].0,
            match out[k].1.rules_json {
                Some(t) => t@,
                None => Seq::<char>::empty(),
            },
        ) by {
            if k < out.len() - 1 {
                assert(spec_fan_prefix(out.drop_last())[k] == (
                    out.drop_last()[k].0,
                    match out.drop_last()[k].1.rules_json {
                        Some(t) => t@,
                        None => Seq::<char>::empty(),
                    },
                ));
                assert(out.drop_last()[k] == out[k]);
            }
        }
    }
}

/// The spec-level shadow of a fan-out result.
pub open spec fn spec_fan_prefix(out: Seq<(HookEventType, HookFileMetadata)>) -> Seq<
    (HookEventType, Seq<char>),
>
    decreases out.len(),
{
    if out.len() == 0 {
        Seq::<(HookEventType, Seq<char>)>::empty()
    } else {
        spec_fan_prefix(out.drop_last()).push(
            (
                out.last().0,
                match out.last().1.rules_json {
                    Some(t) => t@,
                    None => Seq::<char>::empty(),
                },
            ),
        )
    }
}

/// Event names are distinct: two events spelling the same name are the
/// same event.
proof fn lemma_event_name_unique(a: HookEventType, b: HookEventType)
    requires
        a.spec_name() == b.spec_name(),
    ensures
        a == b,
{
    broadcast use vstd::string::group_string_axioms;

    reveal_strlit("PreToolUse");
    reveal_strlit("PostToolUse");
    reveal_strlit("PermissionRequest");
    reveal_strlit("SessionEnd");
    match (a, b) {
        (HookEventType::PreToolUse, HookEventType::PreToolUse) => {},
        (HookEventType::PostToolUse, HookEventType::PostToolUse) => {},
        (HookEventType::PermissionRequest, HookEventType::PermissionRequest) => {},
        (HookEventType::SessionEnd, HookEventType::SessionEnd) => {},
        _ => {
            assert("PreToolUse"@.len() == 10);
            assert("PostToolUse"@.len() == 11);
            assert("PermissionRequest"@.len() == 17);
            assert("SessionEnd"@.len() == 10);
            assert("PreToolUse"@[0] == 'P');
            assert("SessionEnd"@[0] == 'S');
        },
    }
}

/// The rules of one event slot in one application's generated
/// configuration.
pub struct HookEventGroup {
    /// The event slot.
    pub event: HookEventType,
    /// Indexes into the hook table of the records contributing, in
    /// ascending priority order.
    pub hook_indexes: Vec<usize>,
    /// The contributing records' rule arrays, as JSON text, in the same
    /// order.
    pub rules: Vec<String>,
}

/// One application's generated hooks configuration: the four event slots
/// in a fixed order.
pub struct AppHooksConfig {
    pub groups: Vec<HookEventGroup>,
}

/// Rebuild the aggregate configuration of one application: for each event
/// slot, the rule arrays of every hook that is globally enabled, enabled
/// for the application and bound to that event, in ascending priority
/// order.
pub fn generate_app_hooks_config(table: &ResourceTable, app: &AppType) -> (r: AppHooksConfig)
    ensures
        r.groups@.len() == 4,
        r.groups@[0].event == HookEventType::PreToolUse,
        r.groups@[1].event == HookEventType::PostToolUse,
        r.groups@[2].event == HookEventType::PermissionRequest,
        r.groups@[3].event == HookEventType::SessionEnd,
        forall|g: int|
            0 <= g < 4 ==> {
                let grp = #[trigger] r.groups@[g];
                &&& grp.rules@.len() == grp.hook_indexes@.len()
                &&& (forall|a: int, b: int|
                    0 <= a < b < grp.hook_indexes@.len() ==> grp.hook_indexes@[a]
                        != grp.hook_indexes@[b])
                &&& (forall|k: int|
                    0 <= k < grp.hook_indexes@.len() ==> (#[trigger] grp.hook_indexes@[k])
                        < table.records.len() && table.records[grp.hook_indexes@[k] as int]
                        .enabled && table.records[grp.hook_indexes@[k] as int].apps
                        .spec_enabled_for(*app) && table.records[grp.hook_indexes@[k] as int]
                        .event_type == grp.event)
                &&& (forall|j: int|
                    0 <= j < table.records.len() && (#[trigger] table.records[j]).enabled
                        && table.records[j].apps.spec_enabled_for(*app)
                        && table.records[j].event_type == grp.event ==> (exists|k: int|
                        0 <= k < grp.hook_indexes@.len() && grp.hook_indexes@[k] == j))
                &&& (forall|a: int, b: int|
                    0 <= a < b < grp.hook_indexes@.len() ==> table.records[grp.hook_indexes@[a]
                        as int].priority <= table.records[grp.hook_indexes@[b] as int].priority)
                &&& (forall|k: int|
                    0 <= k < grp.rules@.len() ==> (#[trigger] grp.rules@[k])@ == table.records[
                    grp.hook_indexes@[k] as int].rules_json@)
            },
{
    let mut groups: Vec<HookEventGroup> = Vec::new();
    let mut e: usize = 0;
    while e < 4
        invariant
            e <= 4,
            groups@.len() == e,
            forall|g: int|
                0 <= g < e ==> (#[trigger] groups@[g]).event == spec_event_order(g),
            forall|g: int|
                0 <= g < e ==> {
                    let grp = #[trigger] groups@[g];
                    &&& grp.rules@.len() == grp.hook_indexes@.len()
                    &&& (forall|a: int, b: int|
                        0 <= a < b < grp.hook_indexes@.len() ==> grp.hook_indexes@[a]
                            != grp.hook_indexes@[b])
                    &&& (forall|k: int|
                        0 <= k < grp.hook_indexes@.len() ==> (#[trigger] grp.hook_indexes@[k])
                            < table.records.len() && table.records[grp.hook_indexes@[k] as int]
                            .enabled && table.records[grp.hook_indexes@[k] as int].apps
                            .spec_enabled_for(*app) && table.records[grp.hook_indexes@[k]
                            as int].event_type == grp.event)
                    &&& (forall|j: int|
                        0 <= j < table.records.len() && (#[trigger] table.records[j]).enabled
                            && table.records[j].apps.spec_enabled_for(*app)
                            && table.records[j].event_type == grp.event ==> (exists|k: int|
                            0 <= k < grp.hook_indexes@.len() && grp.hook_indexes@[k] == j))
                    &&& (forall|a: int, b: int|
                        0 <= a < b < grp.hook_indexes@.len() ==> table.records[
                        grp.hook_indexes@[a] as int].priority <= table.records[
                        grp.hook_indexes@[b] as int].priority)
                    &&& (forall|k: int|
                        0 <= k < grp.rules@.len() ==> (#[trigger] grp.rules@[k])@
                            == table.records[grp.hook_indexes@[k] as int].rules_json@)
                },
        decreases 4 - e,
    {
        let event = match e {
            0 => HookEventType::PreToolUse,
            1 => HookEventType::PostToolUse,
            2 => HookEventType::PermissionRequest,
            _ => HookEventType::SessionEnd,
        };
        let hook_indexes = table.enabled_by_event(&event, app);
        let mut rules: Vec<String> = Vec::new();
        let m = hook_indexes.len();
        let mut k: usize = 0;
        while k < m
            invariant
                k <= m,
                m == hook_indexes@.len(),
                rules@.len() == k,
                forall|j: int|
                    0 <= j < hook_indexes@.len() ==> (#[trigger] hook_indexes@[j])
                        < table.records.len(),
                forall|j: int|
                    0 <= j < k ==> (#[trigger] rules@[j])@ == table.records[hook_indexes@[j]
                        as int].rules_json@,
            decreases m - k,
        {
            rules.push(table.records[hook_indexes[k]].rules_json.clone());
            k += 1;
        }
        groups.push(HookEventGroup { event, hook_indexes, rules });
        e += 1;
    }
    AppHooksConfig { groups }
}

/// The fixed order of the event slots in a generated configuration.
pub open spec fn spec_event_order(g: int) -> HookEventType {
    if g == 0 {
        HookEventType::PreToolUse
    } else if g == 1 {
        HookEventType::PostToolUse
    } else if g == 2 {
        HookEventType::PermissionRequest
    } else {
        HookEventType::SessionEnd
    }
}

} // verus!

verus! {

/// Whether the managed matcher list accounts for an `(event, matcher)`
/// pair.
pub open spec fn spec_matcher_managed(
    managed: Seq<(HookEventType, Seq<char>)>,
    event: HookEventType,
    matcher: Seq<char>,
) -> bool {
    exists|k: int|
        0 <= k < managed.len() && (#[trigger] managed[k]).0 == event && managed[k].1 == matcher
}

/// The spec-level shadow of a managed matcher list.
pub open spec fn spec_managed_view(managed: Seq<(HookEventType, String)>) -> Seq<
    (HookEventType, Seq<char>),
> {
    Seq::new(managed.len(), |k: int| (managed[k].0, managed[k].1@))
}

/// The unmanaged hook rules of one application's settings document: the
/// rules under the well-known key whose `(event, matcher)` pair no
/// managed record accounts for.  The surrounding program parses the
/// document into `(event, matcher, rule text)` triples and the managed
/// matcher pairs out of the stored rule arrays; this decides which
/// triples are unmanaged.
pub fn unmanaged_hook_rules(
    rules: &Vec<(HookEventType, String, String)>,
    managed_matchers: &Vec<(HookEventType, String)>,
) -> (r: Vec<usize>)
    ensures
        forall|k: int|
            0 <= k < r@.len() ==> (#[trigger] r@[k]) < rules@.len() && !spec_matcher_managed(
                spec_managed_view(managed_matchers@),
                rules@[r@[k] as int].0,
                rules@[r@[k] as int].1@,
            ),
        forall|j: int|
            0 <= j < rules@.len() && !spec_matcher_managed(
                spec_managed_view(managed_matchers@),
                (#[trigger] rules@[j]).0,
                rules@[j].1@,
            ) ==> (exists|k: int| 0 <= k < r@.len() && (#[trigger] r@[k]) == j),
        forall|a: int, b: int| 0 <= a < b < r@.len() ==> r@[a] != r@[b],
{
    let n = rules.len();
    let m = managed_matchers.len();
    let mut out: Vec<usize> = Vec::new();
    let mut j: usize = 0;
    while j < n
        invariant
            j <= n,
            n == rules@.len(),
            m == managed_matchers@.len(),
            forall|k: int|
                0 <= k < out@.len() ==> (#[trigger] out@[k]) < j && !spec_matcher_managed(
                    spec_managed_view(managed_matchers@),
                    rules@[out@[k] as int].0,
                    rules@[out@[k] as int].1@,
                ),
            forall|j2: int|
                0 <= j2 < j && !spec_matcher_managed(
                    spec_managed_view(managed_matchers@),
                    (#[trigger] rules@[j2]).0,
                    rules@[j2].1@,
                ) ==> (exists|k: int| 0 <= k < out@.len() && (#[trigger] out@[k]) == j2),
            forall|a: int, b: int| 0 <= a < b < out@.len() ==> out@[a] != out@[b],
        decreases n - j,
    {
        let (event, matcher, _text) = &rules[j];
        let mut covered = false;
        let mut k: usize = 0;
        while k < m && !covered
            invariant
                k <= m,
                j < n,
                n == rules@.len(),
                m == managed_matchers@.len(),
                *event == rules@[j as int].0,
                matcher@ == rules@[j as int].1@,
                covered ==> spec_matcher_managed(
                    spec_managed_view(managed_matchers@),
                    rules@[j as int].0,
                    rules@[j as int].1@,
                ),
                !covered ==> forall|k2: int|
                    0 <= k2 < k ==> !((#[trigger] spec_managed_view(managed_matchers@)[k2]).0
                        == rules@[j as int].0 && spec_managed_view(managed_matchers@)[k2].1
                        == rules@[j as int].1@),
            decreases m - k, (if covered { 0int } else { 1int }),
        {
            let (mev, mmatcher) = &managed_matchers[k];
            let same_event = matches!(
                (mev, event),
                (HookEventType::PreToolUse, HookEventType::PreToolUse)
                | (HookEventType::PostToolUse, HookEventType::PostToolUse)
                | (HookEventType::PermissionRequest, HookEventType::PermissionRequest)
                | (HookEventType::SessionEnd, HookEventType::SessionEnd)
            );
            if same_event && crate::strutil::eq_str(mmatcher.as_str(), matcher.as_str()) {
                covered = true;
                proof {
                    assert(spec_managed_view(managed_matchers@)[k as int].0 == rules@[j as int]
                        .0);
                    assert(spec_managed_view(managed_matchers@)[k as int].1 == rules@[j as int]
                        .1@);
                }
            } else {
                k += 1;
            }
        }
        if !covered {
            let ghost prev = out@;
            out.push(j);
            proof {
                assert(out@[out@.len() - 1] == j as usize);
                assert forall|j2: int|
                    0 <= j2 < j + 1 && !spec_matcher_managed(
                        spec_managed_view(managed_matchers@),
                        (#[trigger] rules@[j2]).0,
                        rules@[j2].1@,
                    ) implies (exists|k2: int|
                    0 <= k2 < out@.len() && (#[trigger] out@[k2]) == j2) by {
                    if j2 < j {
                        let k2 = choose|k2: int|
                            0 <= k2 < prev.len() && (#[trigger] prev[k2]) == j2;
                        assert(out@[k2] == j2);
                    }
                }
            }
        }
        j += 1;
    }
    out
}

} // verus!
