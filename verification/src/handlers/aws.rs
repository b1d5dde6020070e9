//! `aws`: errors kept as they are, `s3 ls` summarised, and JSON listings
//! reduced to the identifying fields of their resources.
use vstd::prelude::*;
use super::ls::last_index_of;
use super::util::{joined, line_at, no_lines, output_lines, push_line, push_lit_line};
use super::{
    any_arg_is, arg, arg_chars, clone_args, has_arg, lemma_arg_at, lemma_same_args, lemma_strs_extend,
    strs, Handler,
};
use crate::json::{Json, array_of, as_array, as_str, field_str, get, get_field, json_parse, parse_json, str_of, str_or};
use crate::order::{insert_name, lex_lt, sort_by};
use crate::text::{
    byte_len, utf8_len, chars_of, contains, contains_lit, decimal, eq_chars, eq_lit, is_ascii_digit, is_digit, join,
    join_with, lines, push_all, push_decimal, push_str, slice, starts_lit, starts_with, string_of,
    trim, trim_of, trim_start, trim_start_of, views, words, words_of,
};

verus! {

pub struct AwsHandler;

/// The number of resources listed.
pub const MAX_RESOURCES: usize = 25;

/// Services whose commands print JSON and take `--output json`.
pub open spec fn json_subcmd(s: Seq<char>) -> bool {
    ||| s == "ec2"@ ||| s == "ecs"@ ||| s == "eks"@ ||| s == "lambda"@ ||| s == "s3api"@
    ||| s == "iam"@ ||| s == "rds"@ ||| s == "elb"@ ||| s == "elbv2"@ ||| s == "cloudformation"@
    ||| s == "cloudwatch"@ ||| s == "sns"@ ||| s == "sqs"@ ||| s == "sts"@ ||| s == "ssm"@
    ||| s == "secretsmanager"@ ||| s == "route53"@ ||| s == "logs"@ ||| s == "dynamodb"@
    ||| s == "kinesis"@ ||| s == "glue"@ ||| s == "emr"@ ||| s == "athena"@
}

/// Read-only actions, which print structured output.
pub open spec fn structured_action(a: Seq<char>) -> bool {
    starts_with(a, "describe-"@) || starts_with(a, "list-"@) || starts_with(a, "get-"@)
        || starts_with(a, "filter-"@)
}

/// `--output json` is added for read-only actions of JSON services unless
/// an output format is chosen.
pub open spec fn aws_args(args: Seq<String>) -> Seq<Seq<char>> {
    let sub = arg(args, 1);
    let act = arg(args, 2);
    if json_subcmd(sub) && (act.len() == 0 || structured_action(act)) && !has_arg(args, "--output"@) {
        strs(args).push("--output"@).push("json"@)
    } else {
        strs(args)
    }
}

/// A string field, `-` when absent.
pub open spec fn sf(v: Json, key: Seq<char>) -> Seq<char> {
    str_or(v, key, "-"@)
}

/// The lines, under the header, with a count of the resources not listed;
/// `None` when there are no lines.
pub open spec fn emit(ls: Seq<Seq<char>>, total: nat, header: Option<Seq<char>>) -> Option<Seq<char>> {
    if ls.len() == 0 {
        None
    } else {
        let h = match header {
            Some(h) => seq![h],
            None => seq![],
        };
        let more = if total > MAX_RESOURCES {
            seq!["[+"@ + decimal((total - MAX_RESOURCES) as nat) + " more]"@]
        } else {
            seq![]
        };
        Some(join(h + ls + more, seq!['\n']))
    }
}

pub open spec fn first_resources(s: Seq<Json>) -> Seq<Json> {
    s.take(if s.len() < MAX_RESOURCES {
        s.len() as int
    } else {
        MAX_RESOURCES as int
    })
}

pub open spec fn sts_spec(v: Json) -> Option<Seq<char>> {
    Some(
        "Account="@ + sf(v, "Account"@) + " UserId="@ + sf(v, "UserId"@) + " Arn="@ + sf(
            v,
            "Arn"@,
        ),
    )
}

/// The instances of all reservations; `None` when a reservation has no
/// instance array.
pub open spec fn all_instances(rs: Seq<Json>) -> Option<Seq<Json>>
    decreases rs.len(),
{
    if rs.len() == 0 {
        Some(seq![])
    } else {
        match all_instances(rs.drop_last()) {
            Some(p) => match as_array(get(rs.last(), "Instances"@)) {
                Some(is) => Some(p + is),
                None => None,
            },
            None => None,
        }
    }
}

pub open spec fn instance_line(inst: Json) -> Seq<char> {
    let state = match get(inst, "State"@) {
        Some(s) => str_or(s, "Name"@, "-"@),
        None => "-"@,
    };
    sf(inst, "InstanceId"@) + "\t"@ + state + "\t"@ + str_or(inst, "PublicIpAddress"@, "-"@) + "\t"@
        + sf(inst, "InstanceType"@)
}

pub open spec fn ec2_instances_spec(v: Json) -> Option<Seq<char>> {
    match as_array(get(v, "Reservations"@)) {
        Some(rs) => match all_instances(rs) {
            Some(all) => emit(
                first_resources(all).map_values(|i: Json| instance_line(i)),
                all.len(),
                Some("InstanceId\tState\tPublicIp\tType"@),
            ),
            None => None,
        },
        None => None,
    }
}

/// Tab-separated string fields of an item.
pub open spec fn fields_line(item: Json, fields: Seq<Seq<char>>) -> Seq<char> {
    join(fields.map_values(|f: Seq<char>| sf(item, f)), "\t"@)
}

/// The first resources of the array under `key`, one line of fields each.
pub open spec fn fields_list_spec(v: Json, key: Seq<char>, fields: Seq<Seq<char>>) -> Option<Seq<char>> {
    match as_array(get(v, key)) {
        Some(items) => emit(
            first_resources(items).map_values(|it: Json| fields_line(it, fields)),
            items.len(),
            Some(join(fields, "\t"@)),
        ),
        None => None,
    }
}

/// The part of an ARN after its last `/`.
pub open spec fn arn_tail(a: Seq<char>) -> Seq<char> {
    a.skip(last_index_of(a, '/') + 1)
}

pub open spec fn is_str(j: Json) -> bool {
    j is Str
}

pub open spec fn str_text(j: Json) -> Seq<char> {
    match j {
        Json::Str(s) => s@,
        _ => seq![],
    }
}

pub open spec fn arn_list_spec(v: Json, key: Seq<char>) -> Option<Seq<char>> {
    match as_array(get(v, key)) {
        Some(arns) => emit(
            first_resources(arns).filter(|a: Json| is_str(a)).map_values(
                |a: Json| arn_tail(str_text(a)),
            ),
            arns.len(),
            None,
        ),
        None => None,
    }
}

/// A value as text: strings as they are, numbers as written, booleans,
/// `-` for null and `[object]` for the rest.
pub open spec fn value_text(val: Json) -> Seq<char> {
    match val {
        Json::Str(s) => s@,
        Json::Number(n) => n.text@,
        Json::Bool(b) => if b {
            "true"@
        } else {
            "false"@
        },
        Json::Null => "-"@,
        _ => "[object]"@,
    }
}

pub open spec fn entry_text(e: (String, Json)) -> Seq<char> {
    e.0@ + "="@ + value_text(e.1)
}

/// The first five entries of an object as `key=value`, tab-separated.
pub open spec fn object_line(item: Json) -> Seq<char> {
    match item {
        Json::Object(es) => join(
            es@.take(if es@.len() < 5 {
                es@.len() as int
            } else {
                5
            }).map_values(|e: (String, Json)| entry_text(e)),
            "\t"@,
        ),
        _ => seq![],
    }
}

pub open spec fn is_object(j: Json) -> bool {
    j is Object
}

/// The array to list: the value itself, or the only value of an object.
pub open spec fn generic_array(v: Json) -> Option<Seq<Json>> {
    match v {
        Json::Array(a) => Some(a@),
        Json::Object(es) => if es@.len() == 1 {
            as_array(Some(es@[0].1))
        } else {
            None
        },
        _ => None,
    }
}

pub open spec fn generic_list_spec(v: Json) -> Option<Seq<char>> {
    match generic_array(v) {
        Some(arr) => if arr.len() == 0 || !is_object(arr[0]) {
            None
        } else {
            emit(
                first_resources(arr).filter(|j: Json| is_object(j)).map_values(
                    |j: Json| object_line(j),
                ),
                arr.len(),
                None,
            )
        },
        None => None,
    }
}

/// The compact listing for a service and action.
pub open spec fn extract_spec(sub: Seq<char>, act: Seq<char>, v: Json) -> Option<Seq<char>> {
    if sub == "ec2"@ && act == "describe-instances"@ {
        ec2_instances_spec(v)
    } else if sub == "ec2"@ && act == "describe-security-groups"@ {
        fields_list_spec(v, "SecurityGroups"@, seq!["GroupId"@, "GroupName"@, "Description"@])
    } else if sub == "iam"@ && act == "list-users"@ {
        fields_list_spec(v, "Users"@, seq!["UserName"@, "UserId"@, "CreateDate"@])
    } else if sub == "iam"@ && act == "list-roles"@ {
        fields_list_spec(v, "Roles"@, seq!["RoleName"@, "RoleId"@])
    } else if sub == "lambda"@ && act == "list-functions"@ {
        fields_list_spec(v, "Functions"@, seq!["FunctionName"@, "Runtime"@, "LastModified"@])
    } else if sub == "ecs"@ && act == "list-clusters"@ {
        arn_list_spec(v, "clusterArns"@)
    } else if sub == "ecs"@ && act == "list-services"@ {
        arn_list_spec(v, "serviceArns"@)
    } else if sub == "ecs"@ && act == "list-tasks"@ {
        arn_list_spec(v, "taskArns"@)
    } else if sub == "s3api"@ && act == "list-buckets"@ {
        fields_list_spec(v, "Buckets"@, seq!["Name"@, "CreationDate"@])
    } else if sub == "sts"@ && act == "get-caller-identity"@ {
        sts_spec(v)
    } else {
        generic_list_spec(v)
    }
}

/// The value of a decimal digit string.
pub open spec fn digits_value(d: Seq<char>) -> nat
    decreases d.len(),
{
    if d.len() == 0 {
        0
    } else {
        digits_value(d.drop_last()) * 10 + ((d.last() as u32) - ('0' as u32)) as nat
    }
}

/// The text after an optional leading `+`.
pub open spec fn unsigned_digits(s: Seq<char>) -> Seq<char> {
    if starts_with(s, "+"@) {
        s.skip(1)
    } else {
        s
    }
}

pub open spec fn all_digits(d: Seq<char>) -> bool {
    forall|i: int| 0 <= i < d.len() ==> is_digit(#[trigger] d[i])
}

/// `str::parse::<u64>`: an optional `+` and decimal digits whose value fits.
pub open spec fn parse_u64(s: Seq<char>) -> Option<u64> {
    let d = unsigned_digits(s);
    if d.len() > 0 && all_digits(d) && digits_value(d) <= u64::MAX {
        Some(digits_value(d) as u64)
    } else {
        None
    }
}

/// Prefixes seen (each once), and the number and total size of objects.
pub struct S3State {
    pub prefixes: Seq<Seq<char>>,
    pub count: nat,
    pub size: u64,
}

pub open spec fn s3_step(st: S3State, line: Seq<char>) -> S3State {
    let t = trim(line);
    if t.len() == 0 {
        st
    } else if starts_with(t, "PRE "@) {
        let p = trim(t.skip(4));
        if st.prefixes.contains(p) {
            st
        } else {
            S3State { prefixes: st.prefixes.push(p), ..st }
        }
    } else {
        let parts = words(t);
        if parts.len() >= 4 && parse_u64(parts[2]) is Some {
            S3State {
                count: st.count + 1,
                size: if st.size + parse_u64(parts[2])->0 > u64::MAX {
                    (st.size + parse_u64(parts[2])->0 - 0x1_0000_0000_0000_0000) as u64
                } else {
                    (st.size + parse_u64(parts[2])->0) as u64
                },
                ..st
            }
        } else {
            st
        }
    }
}

/// The state after the first `n` lines.
pub open spec fn s3_state(ls: Seq<Seq<char>>, n: nat) -> S3State
    decreases n,
{
    if n == 0 {
        S3State { prefixes: seq![], count: 0, size: 0 }
    } else {
        s3_step(s3_state(ls, (n - 1) as nat), ls[n - 1])
    }
}

/// The number and size of the objects and each prefix with a `/`, sorted;
/// the output itself when there are none.
pub open spec fn s3_ls_spec(output: Seq<char>) -> Seq<char> {
    let ls = lines(output);
    let st = s3_state(ls, ls.len());
    let loose = if st.count > 0 {
        seq![decimal(st.count) + " objects, "@ + decimal(st.size as nat) + " bytes"@]
    } else {
        seq![]
    };
    let out = loose + st.prefixes.map_values(|p: Seq<char>| p + "/"@);
    if out.len() == 0 {
        output
    } else {
        join(sort_by(out, |a: Seq<char>, b: Seq<char>| lex_lt(a, b)), seq!['\n'])
    }
}

/// Errors unchanged; `s3 ls` summarised; JSON output replaced by its
/// compact listing when that is shorter in bytes; anything else unchanged.
pub open spec fn aws_spec(output: Seq<char>, args: Seq<String>) -> Seq<char> {
    let sub = arg(args, 1);
    let act = arg(args, 2);
    if starts_with(trim_start(output), "An error"@) || (contains(output, "Error"@) && contains(
        output,
        "Code"@,
    )) {
        output
    } else if sub == "s3"@ && act == "ls"@ {
        s3_ls_spec(output)
    } else {
        let t = trim(output);
        if starts_with(t, "{"@) || starts_with(t, "["@) {
            match json_parse(t) {
                Some(v) => match extract_spec(sub, act, v) {
                    Some(e) => if utf8_len(e) < utf8_len(t) {
                        e
                    } else {
                        output
                    },
                    None => output,
                },
                None => output,
            }
        } else {
            output
        }
    }
}

pub open spec fn opt_text(o: Option<String>) -> Option<Seq<char>> {
    match o {
        Some(s) => Some(s@),
        None => None,
    }
}

pub open spec fn opt_str(o: Option<&str>) -> Option<Seq<char>> {
    match o {
        Some(s) => Some(s@),
        None => None,
    }
}

pub open spec fn lits(v: Seq<&str>) -> Seq<Seq<char>> {
    v.map_values(|s: &str| s@)
}

/// Whether an action is read-only (`describe-`, `list-`, `get-`, `filter-`).
pub fn is_structured_action(action: &str) -> (b: bool)
    ensures
        b == structured_action(action@),
{
    let a = chars_of(action);
    let s = a.as_slice();
    starts_lit(s, "describe-") || starts_lit(s, "list-") || starts_lit(s, "get-") || starts_lit(
        s,
        "filter-",
    )
}

fn is_json_subcmd(s: &[char]) -> (b: bool)
    ensures
        b == json_subcmd(s@),
{
    eq_lit(s, "ec2") || eq_lit(s, "ecs") || eq_lit(s, "eks") || eq_lit(s, "lambda") || eq_lit(
        s,
        "s3api",
    ) || eq_lit(s, "iam") || eq_lit(s, "rds") || eq_lit(s, "elb") || eq_lit(s, "elbv2") || eq_lit(
        s,
        "cloudformation",
    ) || eq_lit(s, "cloudwatch") || eq_lit(s, "sns") || eq_lit(s, "sqs") || eq_lit(s, "sts")
        || eq_lit(s, "ssm") || eq_lit(s, "secretsmanager") || eq_lit(s, "route53") || eq_lit(
        s,
        "logs",
    ) || eq_lit(s, "dynamodb") || eq_lit(s, "kinesis") || eq_lit(s, "glue") || eq_lit(s, "emr")
        || eq_lit(s, "athena")
}

/// A string field of a JSON object, `-` when absent or not a string.
pub fn str_field(obj: &Json, key: &str) -> (r: String)
    ensures
        r@ == sf(*obj, key@),
{
    field_str(obj, key, "-")
}

/// The lines under the header, with a `[+N more]` line when more than 25
/// resources exist; `None` without lines.
pub fn emit_lines(ls: Vec<Vec<char>>, total: u128, header: Option<&str>) -> (r: Option<String>)
    ensures
        opt_text(r) == emit(views(ls@), total as nat, opt_str(header)),
{
    if ls.len() == 0 {
        return None;
    }
    let mut out = no_lines();
    match header {
        Some(h) => push_lit_line(&mut out, h),
        None => {},
    }
    let ghost base = views(out@);
    let mut k: usize = 0;
    while k < ls.len()
        invariant
            k <= ls.len(),
            views(out@) == base + views(ls@).take(k as int),
        decreases ls.len() - k,
    {
        push_line(&mut out, line_at(&ls, k));
        assert(views(out@) =~= base + views(ls@).take(k + 1));
        k += 1;
    }
    assert(views(ls@).take(ls.len() as int) =~= views(ls@));
    let ghost mid = views(out@);
    if total > MAX_RESOURCES as u128 {
        let mut m: Vec<char> = Vec::new();
        push_str(&mut m, "[+");
        crate::text::push_decimal_u128(&mut m, total - MAX_RESOURCES as u128);
        push_str(&mut m, " more]");
        let ghost mv = m@;
        push_line(&mut out, m);
        assert(views(out@) =~= mid + seq![mv]);
    } else {
        assert(views(out@) =~= mid + Seq::<Seq<char>>::empty());
    }
    Some(joined(&out))
}

fn first_count(n: usize) -> (r: usize)
    ensures
        r as int == if n < MAX_RESOURCES {
            n as int
        } else {
            MAX_RESOURCES as int
        },
{
    if n < MAX_RESOURCES {
        n
    } else {
        MAX_RESOURCES
    }
}

fn extract_sts_caller_identity(v: &Json) -> (r: Option<String>)
    ensures
        opt_text(r) == sts_spec(*v),
{
    let mut l: Vec<char> = Vec::new();
    push_str(&mut l, "Account=");
    push_str(&mut l, str_field(v, "Account").as_str());
    push_str(&mut l, " UserId=");
    push_str(&mut l, str_field(v, "UserId").as_str());
    push_str(&mut l, " Arn=");
    push_str(&mut l, str_field(v, "Arn").as_str());
    Some(string_of(l.as_slice()))
}

fn instance_text(inst: &Json) -> (r: Vec<char>)
    ensures
        r@ == instance_line(*inst),
{
    let state = match get_field(inst, "State") {
        Some(s) => field_str(s, "Name", "-"),
        None => "-".to_owned(),
    };
    let mut l: Vec<char> = Vec::new();
    push_str(&mut l, str_field(inst, "InstanceId").as_str());
    push_str(&mut l, "\t");
    push_str(&mut l, state.as_str());
    push_str(&mut l, "\t");
    push_str(&mut l, field_str(inst, "PublicIpAddress", "-").as_str());
    push_str(&mut l, "\t");
    push_str(&mut l, str_field(inst, "InstanceType").as_str());
    l
}

proof fn lemma_all_instances_none(rs: Seq<Json>, k: int)
    requires
        0 <= k <= rs.len(),
        all_instances(rs.take(k)) is None,
    ensures
        all_instances(rs) is None,
    decreases rs.len() - k,
{
    if k < rs.len() {
        assert(rs.take(k + 1).drop_last() =~= rs.take(k));
        lemma_all_instances_none(rs, k + 1);
    } else {
        assert(rs.take(k) =~= rs);
    }
}

proof fn lemma_total_bound(before: nat, i: nat, j: nat, n: nat, m: nat)
    requires
        before <= i * (usize::MAX as nat),
        i < n,
        n <= usize::MAX,
        j <= m,
        m <= usize::MAX,
    ensures
        before + j <= (i + 1) * (usize::MAX as nat),
        (i + 1) * (usize::MAX as nat) < u128::MAX,
{
    assert((i + 1) * (usize::MAX as nat) == i * (usize::MAX as nat) + (usize::MAX as nat)) by (nonlinear_arith);
    assert((i + 1) * (usize::MAX as nat) <= (usize::MAX as nat) * (usize::MAX as nat)) by (nonlinear_arith)
        requires
            i + 1 <= usize::MAX,
    ;
    assert((usize::MAX as nat) * (usize::MAX as nat) < u128::MAX) by (nonlinear_arith)
        requires
            usize::MAX <= 0xffff_ffff_ffff_ffff,
    ;
}

fn extract_ec2_instances(v: &Json) -> (r: Option<String>)
    ensures
        opt_text(r) == ec2_instances_spec(*v),
{
    let rs = match array_of(get_field(v, "Reservations")) {
        Some(a) => a,
        None => return None,
    };
    let ghost rv = rs@;
    let ghost li = |i: Json| instance_line(i);
    let mut lines = no_lines();
    let mut total: u128 = 0;
    let mut i: usize = 0;
    assert(rv.take(0) =~= Seq::<Json>::empty());
    assert(all_instances(rv.take(0)) == Some(Seq::<Json>::empty()));
    while i < rs.len()
        invariant
            i <= rs.len(),
            rv == rs@,
            as_array(get(*v, "Reservations"@)) == Some(rv),
            li == (|i: Json| instance_line(i)),
            all_instances(rv.take(i as int)) is Some,
            total as nat == all_instances(rv.take(i as int))->0.len(),
            total <= (i as nat) * (usize::MAX as nat),
            views(lines@) == first_resources(all_instances(rv.take(i as int))->0).map_values(li),
        decreases rs.len() - i,
    {
        assert(rv.take(i + 1).drop_last() =~= rv.take(i as int));
        assert(rv.take(i + 1).last() == rv[i as int]);
        let ghost before = all_instances(rv.take(i as int))->0;
        let insts = match array_of(get_field(&rs[i], "Instances")) {
            Some(a) => a,
            None => {
                proof {
                    lemma_all_instances_none(rv, i + 1);
                }
                return None;
            },
        };
        let ghost iv = insts@;
        let mut j: usize = 0;
        while j < insts.len()
            invariant
                j <= insts.len(),
                i < rs.len(),
                iv == insts@,
                li == (|i: Json| instance_line(i)),
                total as nat == before.len() + j,
                before.len() <= (i as nat) * (usize::MAX as nat),
                views(lines@) == first_resources(before + iv.take(j as int)).map_values(li),
            decreases insts.len() - j,
        {
            proof {
                lemma_total_bound(before.len(), i as nat, (j + 1) as nat, rs.len() as nat, insts.len() as nat);
            }
            let ghost cur = before + iv.take(j as int);
            let ghost nxt = before + iv.take(j + 1);
            assert(nxt =~= cur.push(iv[j as int]));
            if lines.len() < MAX_RESOURCES {
                assert(views(lines@).len() == lines.len());
                let t = instance_text(&insts[j]);
                push_line(&mut lines, t);
                assert(first_resources(nxt) =~= first_resources(cur).push(iv[j as int]));
            } else {
                assert(views(lines@).len() == lines.len());
                assert(first_resources(nxt) =~= first_resources(cur));
            }
            assert(views(lines@) =~= first_resources(nxt).map_values(li));
            total += 1;
            j += 1;
        }
        assert(iv.take(insts.len() as int) =~= iv);
        proof {
            lemma_total_bound(before.len(), i as nat, insts.len() as nat, rs.len() as nat, insts.len() as nat);
        }
        i += 1;
    }
    assert(rv.take(rs.len() as int) =~= rv);
    emit_lines(lines, total, Some("InstanceId\tState\tPublicIp\tType"))
}

fn fields_text(item: &Json, fields: &[&str]) -> (r: Vec<char>)
    ensures
        r@ == fields_line(*item, lits(fields@)),
{
    let ghost fv = lits(fields@);
    let ghost g = |f: Seq<char>| sf(*item, f);
    let mut parts = no_lines();
    let mut k: usize = 0;
    while k < fields.len()
        invariant
            k <= fields.len(),
            fv == lits(fields@),
            g == (|f: Seq<char>| sf(*item, f)),
            views(parts@) == fv.take(k as int).map_values(g),
        decreases fields.len() - k,
    {
        let s = str_field(item, fields[k]);
        push_line(&mut parts, chars_of(s.as_str()));
        assert(views(parts@) =~= fv.take(k + 1).map_values(g));
        k += 1;
    }
    assert(fv.take(fields.len() as int) =~= fv);
    let tab = chars_of("\t");
    join_with(&parts, tab.as_slice())
}

fn join_lits(fields: &[&str]) -> (r: String)
    ensures
        r@ == join(lits(fields@), "\t"@),
{
    let ghost fv = lits(fields@);
    let mut parts = no_lines();
    let mut k: usize = 0;
    while k < fields.len()
        invariant
            k <= fields.len(),
            fv == lits(fields@),
            views(parts@) == fv.take(k as int),
        decreases fields.len() - k,
    {
        push_lit_line(&mut parts, fields[k]);
        assert(views(parts@) =~= fv.take(k + 1));
        k += 1;
    }
    assert(fv.take(fields.len() as int) =~= fv);
    let tab = chars_of("\t");
    let j = join_with(&parts, tab.as_slice());
    string_of(j.as_slice())
}

fn fields_list(v: &Json, key: &str, fields: &[&str]) -> (r: Option<String>)
    ensures
        opt_text(r) == fields_list_spec(*v, key@, lits(fields@)),
{
    let items = match array_of(get_field(v, key)) {
        Some(a) => a,
        None => return None,
    };
    let ghost iv = items@;
    let ghost fl = |it: Json| fields_line(it, lits(fields@));
    let n = first_count(items.len());
    let mut lines = no_lines();
    let mut k: usize = 0;
    while k < n
        invariant
            k <= n <= items.len(),
            n as int == first_resources(iv).len(),
            iv == items@,
            fl == (|it: Json| fields_line(it, lits(fields@))),
            views(lines@) == first_resources(iv).take(k as int).map_values(fl),
        decreases n - k,
    {
        let t = fields_text(&items[k], fields);
        push_line(&mut lines, t);
        assert(views(lines@) =~= first_resources(iv).take(k + 1).map_values(fl));
        k += 1;
    }
    assert(first_resources(iv).take(n as int) =~= first_resources(iv));
    let header = join_lits(fields);
    emit_lines(lines, items.len() as u128, Some(header.as_str()))
}

fn extract_ecs_arn_list(v: &Json, key: &str) -> (r: Option<String>)
    ensures
        opt_text(r) == arn_list_spec(*v, key@),
{
    let arns = match array_of(get_field(v, key)) {
        Some(a) => a,
        None => return None,
    };
    let ghost av = arns@;
    let ghost p = |a: Json| is_str(a);
    let ghost t = |a: Json| arn_tail(str_text(a));
    let n = first_count(arns.len());
    let mut lines = no_lines();
    let mut k: usize = 0;
    while k < n
        invariant
            k <= n <= arns.len(),
            n as int == first_resources(av).len(),
            av == arns@,
            p == (|a: Json| is_str(a)),
            t == (|a: Json| arn_tail(str_text(a))),
            views(lines@) == first_resources(av).take(k as int).filter(p).map_values(t),
        decreases n - k,
    {
        proof {
            crate::text::lemma_filter_take(first_resources(av), p, k as int);
        }
        assert(first_resources(av)[k as int] == av[k as int]);
        match &arns[k] {
            Json::Str(s) => {
                let a = chars_of(s.as_str());
                let mut q = a.len();
                assert(a@.take(q as int) =~= a@);
                while q > 0 && a[q - 1] != '/'
                    invariant
                        q <= a.len(),
                        last_index_of(a@.take(q as int), '/') == last_index_of(a@, '/'),
                    decreases q,
                {
                    proof {
                        let w = a@.take(q as int);
                        assert(w.last() == a@[q - 1]);
                        assert(w.drop_last() =~= a@.take(q - 1));
                    }
                    q -= 1;
                }
                proof {
                    if q == 0 {
                        assert(a@.take(0).len() == 0);
                    } else {
                        let w = a@.take(q as int);
                        assert(w.last() == a@[q - 1]);
                    }
                }
                let tail = slice(a.as_slice(), q, a.len());
                assert(tail@ =~= a@.skip(q as int));
                push_line(&mut lines, tail);
            },
            _ => {},
        }
        assert(views(lines@) =~= first_resources(av).take(k + 1).filter(p).map_values(t));
        k += 1;
    }
    assert(first_resources(av).take(n as int) =~= first_resources(av));
    emit_lines(lines, arns.len() as u128, None)
}

fn value_str(val: &Json) -> (r: Vec<char>)
    ensures
        r@ == value_text(*val),
{
    match val {
        Json::Str(s) => chars_of(s.as_str()),
        Json::Number(n) => chars_of(n.text.as_str()),
        Json::Bool(b) => if *b {
            chars_of("true")
        } else {
            chars_of("false")
        },
        Json::Null => chars_of("-"),
        _ => chars_of("[object]"),
    }
}

fn object_text(item: &Json) -> (r: Vec<char>)
    ensures
        r@ == object_line(*item),
{
    match item {
        Json::Object(es) => {
            let ghost ev = es@;
            let ghost et = |e: (String, Json)| entry_text(e);
            let n = if es.len() < 5 {
                es.len()
            } else {
                5
            };
            let mut parts = no_lines();
            let mut k: usize = 0;
            while k < n
                invariant
                    k <= n <= es.len(),
                    ev == es@,
                    n as int == (if ev.len() < 5 {
                        ev.len() as int
                    } else {
                        5
                    }),
                    et == (|e: (String, Json)| entry_text(e)),
                    views(parts@) == ev.take(k as int).map_values(et),
                decreases n - k,
            {
                let mut l: Vec<char> = Vec::new();
                push_str(&mut l, es[k].0.as_str());
                push_str(&mut l, "=");
                let vs = value_str(&es[k].1);
                push_all(&mut l, vs.as_slice());
                push_line(&mut parts, l);
                assert(views(parts@) =~= ev.take(k + 1).map_values(et));
                k += 1;
            }
            let tab = chars_of("\t");
            join_with(&parts, tab.as_slice())
        },
        _ => Vec::new(),
    }
}

fn extract_generic_list(v: &Json) -> (r: Option<String>)
    ensures
        opt_text(r) == generic_list_spec(*v),
{
    let arr: &Vec<Json> = match v {
        Json::Array(a) => a,
        Json::Object(es) => {
            if es.len() == 1 {
                match array_of(Some(&es[0].1)) {
                    Some(a) => a,
                    None => return None,
                }
            } else {
                return None;
            }
        },
        _ => return None,
    };
    let ghost av = arr@;
    assert(generic_array(*v) == Some(av));
    if arr.len() == 0 {
        return None;
    }
    match &arr[0] {
        Json::Object(_) => {},
        _ => return None,
    }
    let ghost p = |j: Json| is_object(j);
    let ghost t = |j: Json| object_line(j);
    let n = first_count(arr.len());
    let mut lines = no_lines();
    let mut k: usize = 0;
    while k < n
        invariant
            k <= n <= arr.len(),
            n as int == first_resources(av).len(),
            av == arr@,
            p == (|j: Json| is_object(j)),
            t == (|j: Json| object_line(j)),
            views(lines@) == first_resources(av).take(k as int).filter(p).map_values(t),
        decreases n - k,
    {
        proof {
            crate::text::lemma_filter_take(first_resources(av), p, k as int);
        }
        assert(first_resources(av)[k as int] == av[k as int]);
        match &arr[k] {
            Json::Object(_) => {
                let l = object_text(&arr[k]);
                push_line(&mut lines, l);
            },
            _ => {},
        }
        assert(views(lines@) =~= first_resources(av).take(k + 1).filter(p).map_values(t));
        k += 1;
    }
    assert(first_resources(av).take(n as int) =~= first_resources(av));
    emit_lines(lines, arr.len() as u128, None)
}

/// The compact listing of a parsed JSON response for a service and action,
/// `None` when the response does not have the expected shape or lists
/// nothing.
pub fn extract_aws_resources(subcmd: &str, action: &str, v: &Json) -> (r: Option<String>)
    ensures
        opt_text(r) == extract_spec(subcmd@, action@, *v),
{
    let sv = chars_of(subcmd);
    let av = chars_of(action);
    let s = sv.as_slice();
    let a = av.as_slice();
    if eq_lit(s, "ec2") && eq_lit(a, "describe-instances") {
        extract_ec2_instances(v)
    } else if eq_lit(s, "ec2") && eq_lit(a, "describe-security-groups") {
        let f: Vec<&str> = vec!["GroupId", "GroupName", "Description"];
        let r = fields_list(v, "SecurityGroups", f.as_slice());
        assert(lits(f@) =~= seq!["GroupId"@, "GroupName"@, "Description"@]);
        r
    } else if eq_lit(s, "iam") && eq_lit(a, "list-users") {
        let f: Vec<&str> = vec!["UserName", "UserId", "CreateDate"];
        let r = fields_list(v, "Users", f.as_slice());
        assert(lits(f@) =~= seq!["UserName"@, "UserId"@, "CreateDate"@]);
        r
    } else if eq_lit(s, "iam") && eq_lit(a, "list-roles") {
        let f: Vec<&str> = vec!["RoleName", "RoleId"];
        let r = fields_list(v, "Roles", f.as_slice());
        assert(lits(f@) =~= seq!["RoleName"@, "RoleId"@]);
        r
    } else if eq_lit(s, "lambda") && eq_lit(a, "list-functions") {
        let f: Vec<&str> = vec!["FunctionName", "Runtime", "LastModified"];
        let r = fields_list(v, "Functions", f.as_slice());
        assert(lits(f@) =~= seq!["FunctionName"@, "Runtime"@, "LastModified"@]);
        r
    } else if eq_lit(s, "ecs") && eq_lit(a, "list-clusters") {
        extract_ecs_arn_list(v, "clusterArns")
    } else if eq_lit(s, "ecs") && eq_lit(a, "list-services") {
        extract_ecs_arn_list(v, "serviceArns")
    } else if eq_lit(s, "ecs") && eq_lit(a, "list-tasks") {
        extract_ecs_arn_list(v, "taskArns")
    } else if eq_lit(s, "s3api") && eq_lit(a, "list-buckets") {
        let f: Vec<&str> = vec!["Name", "CreationDate"];
        let r = fields_list(v, "Buckets", f.as_slice());
        assert(lits(f@) =~= seq!["Name"@, "CreationDate"@]);
        r
    } else if eq_lit(s, "sts") && eq_lit(a, "get-caller-identity") {
        extract_sts_caller_identity(v)
    } else {
        extract_generic_list(v)
    }
}

proof fn lemma_digits_prefix(d: Seq<char>, k: int)
    requires
        0 <= k <= d.len(),
    ensures
        digits_value(d.take(k)) <= digits_value(d),
    decreases d.len() - k,
{
    if k < d.len() {
        lemma_digits_prefix(d, k + 1);
        assert(d.take(k + 1).drop_last() =~= d.take(k));
    } else {
        assert(d.take(k) =~= d);
    }
}

fn parse_size(s: &[char]) -> (r: Option<u64>)
    ensures
        r == parse_u64(s@),
{
    proof {
        reveal_strlit("+");
    }
    let d = if starts_lit(s, "+") {
        slice(s, 1, s.len())
    } else {
        slice(s, 0, s.len())
    };
    assert(starts_with(s@, "+"@) ==> d@ =~= s@.skip(1));
    assert(!starts_with(s@, "+"@) ==> d@ =~= s@);
    if d.len() == 0 {
        return None;
    }
    let ghost dd = unsigned_digits(s@);
    assert(d@ == dd);
    let mut i: usize = 0;
    while i < d.len()
        invariant
            i <= d.len(),
            d@ == dd,
            dd == unsigned_digits(s@),
            forall|q: int| 0 <= q < i ==> is_digit(#[trigger] d@[q]),
        decreases d.len() - i,
    {
        if !is_ascii_digit(d[i]) {
            assert(!is_digit(dd[i as int]));
            assert(!all_digits(dd));
            assert(parse_u64(s@) is None);
            return None;
        }
        i += 1;
    }
    let mut val: u64 = 0;
    let mut k: usize = 0;
    assert(d@.take(0).len() == 0);
    while k < d.len()
        invariant
            k <= d.len(),
            d@ == dd,
            dd == unsigned_digits(s@),
            d.len() > 0,
            forall|q: int| 0 <= q < d.len() ==> is_digit(#[trigger] d@[q]),
            val as nat == digits_value(d@.take(k as int)),
        decreases d.len() - k,
    {
        assert(d@.take(k + 1).drop_last() =~= d@.take(k as int));
        assert(d@.take(k + 1).last() == d@[k as int]);
        assert(is_digit(d@[k as int]));
        let dig = (d[k] as u32 - '0' as u32) as u64;
        assert(digits_value(d@.take(k + 1)) == digits_value(d@.take(k as int)) * 10 + dig);
        match val.checked_mul(10) {
            Some(m) => match m.checked_add(dig) {
                Some(x) => {
                    val = x;
                },
                None => {
                    proof {
                        lemma_digits_prefix(d@, k + 1);
                    }
                    return None;
                },
            },
            None => {
                proof {
                    lemma_digits_prefix(d@, k + 1);
                }
                return None;
            },
        }
        k += 1;
    }
    assert(d@.take(d.len() as int) =~= d@);
    Some(val)
}

fn has_line(v: &Vec<Vec<char>>, x: &[char]) -> (b: bool)
    ensures
        b == views(v@).contains(x@),
{
    let mut k: usize = 0;
    while k < v.len()
        invariant
            k <= v.len(),
            forall|q: int| 0 <= q < k ==> views(v@)[q] != x@,
        decreases v.len() - k,
    {
        assert(views(v@)[k as int] == v@[k as int]@);
        if eq_chars(v[k].as_slice(), x) {
            return true;
        }
        k += 1;
    }
    false
}

/// Summarise `aws s3 ls`: the number and total size of the objects, and
/// each prefix, sorted.
pub fn filter_s3_ls(output: &str) -> (r: String)
    ensures
        r@ == s3_ls_spec(output@),
{
    let ls = output_lines(output);
    let ghost lv = views(ls@);
    let mut prefixes = no_lines();
    let mut count: usize = 0;
    let mut size: u64 = 0;
    let mut i: usize = 0;
    while i < ls.len()
        invariant
            i <= ls.len(),
            lv == views(ls@),
            count <= i,
            s3_state(lv, i as nat) == (S3State { prefixes: views(prefixes@), count: count as nat, size }),
        decreases ls.len() - i,
    {
        assert(lv[i as int] == ls@[i as int]@);
        let t = trim_of(ls[i].as_slice());
        if t.len() == 0 {
        } else if starts_lit(t.as_slice(), "PRE ") {
            proof {
                reveal_strlit("PRE ");
            }
            let rest = slice(t.as_slice(), 4, t.len());
            assert(rest@ =~= t@.skip(4));
            let p = trim_of(rest.as_slice());
            if !has_line(&prefixes, p.as_slice()) {
                push_line(&mut prefixes, p);
            }
        } else {
            let parts = words_of(t.as_slice());
            assert(views(parts@).len() == parts.len());
            if parts.len() >= 4 {
                assert(views(parts@)[2] == parts@[2]@);
                match parse_size(parts[2].as_slice()) {
                    Some(sz) => {
                        count += 1;
                        size = size.wrapping_add(sz);
                    },
                    None => {},
                }
            }
        }
        i += 1;
    }
    assert(lv.len() == ls.len());
    let mut out = no_lines();
    if count > 0 {
        let mut l: Vec<char> = Vec::new();
        push_decimal(&mut l, count);
        push_str(&mut l, " objects, ");
        crate::text::push_decimal_u64(&mut l, size);
        push_str(&mut l, " bytes");
        push_line(&mut out, l);
    }
    let ghost base = views(out@);
    let ghost pv = views(prefixes@);
    let ghost slash = |p: Seq<char>| p + "/"@;
    let mut k: usize = 0;
    while k < prefixes.len()
        invariant
            k <= prefixes.len(),
            pv == views(prefixes@),
            slash == (|p: Seq<char>| p + "/"@),
            views(out@) == base + pv.take(k as int).map_values(slash),
        decreases prefixes.len() - k,
    {
        let mut l = line_at(&prefixes, k);
        push_str(&mut l, "/");
        push_line(&mut out, l);
        assert(views(out@) =~= base + pv.take(k + 1).map_values(slash));
        k += 1;
    }
    assert(pv.take(prefixes.len() as int) =~= pv);
    let ghost ov = views(out@);
    assert(ov.len() == out.len());
    if out.len() == 0 {
        return output.to_owned();
    }
    let ghost lt = |a: Seq<char>, b: Seq<char>| lex_lt(a, b);
    let mut sorted = no_lines();
    let mut q: usize = 0;
    assert(views(sorted@) =~= sort_by(ov.take(0), lt));
    while q < out.len()
        invariant
            q <= out.len(),
            ov == views(out@),
            lt == (|a: Seq<char>, b: Seq<char>| lex_lt(a, b)),
            views(sorted@) == sort_by(ov.take(q as int), lt),
        decreases out.len() - q,
    {
        assert(ov.take(q + 1).drop_last() =~= ov.take(q as int));
        assert(ov.take(q + 1).last() == ov[q as int]);
        assert(ov[q as int] == out@[q as int]@);
        insert_name(&mut sorted, line_at(&out, q));
        q += 1;
    }
    assert(ov.take(out.len() as int) =~= ov);
    joined(&sorted)
}

/// Rewriting the arguments a second time changes nothing: `--output json`
/// is added at most once.
pub proof fn lemma_aws_args_once(args: Seq<String>, r: Seq<String>)
    requires
        strs(r) == aws_args(args),
    ensures
        aws_args(r) == strs(r),
{
    let sub = arg(args, 1);
    let act = arg(args, 2);
    if json_subcmd(sub) && (act.len() == 0 || structured_action(act)) && !has_arg(args, "--output"@) {
        assert(aws_args(args) =~= strs(args) + seq!["--output"@, "json"@]);
        lemma_strs_extend(args, r, seq!["--output"@, "json"@]);
        assert(r[args.len() as int + 0]@ == "--output"@);
        lemma_arg_at(r, args.len() as int);
    } else {
        lemma_same_args(r, args, "--output"@);
        assert(r.len() == strs(r).len() && args.len() == strs(args).len());
        if 1 < args.len() {
            assert(strs(r)[1] == r[1]@ && strs(args)[1] == args[1]@);
        }
        if 2 < args.len() {
            assert(strs(r)[2] == r[2]@ && strs(args)[2] == args[2]@);
        }
    }
}

impl Handler for AwsHandler {
    fn rewrite_args(&self, args: &[String]) -> (r: Vec<String>)
        ensures
            strs(r@) == aws_args(args@),
    {
        let sub = arg_chars(args, 1);
        let act = arg_chars(args, 2);
        let act_s = string_of(act.as_slice());
        let mut out = clone_args(args);
        if is_json_subcmd(sub.as_slice()) && (act.len() == 0 || is_structured_action(act_s.as_str()))
            && !any_arg_is(args, "--output") {
            out.push("--output".to_owned());
            out.push("json".to_owned());
            assert(strs(out@) =~= strs(args@).push("--output"@).push("json"@));
        }
        out
    }

    fn filter(&self, output: &str, args: &[String]) -> (r: String)
        ensures
            r@ == aws_spec(output@, args@),
    {
        let sub = arg_chars(args, 1);
        let act = arg_chars(args, 2);
        let ov = chars_of(output);
        let ts = trim_start_of(ov.as_slice());
        if starts_lit(ts.as_slice(), "An error") || (contains_lit(ov.as_slice(), "Error")
            && contains_lit(ov.as_slice(), "Code")) {
            return output.to_owned();
        }
        if eq_lit(sub.as_slice(), "s3") && eq_lit(act.as_slice(), "ls") {
            return filter_s3_ls(output);
        }
        let t = trim_of(ov.as_slice());
        if !(starts_lit(t.as_slice(), "{") || starts_lit(t.as_slice(), "[")) {
            return output.to_owned();
        }
        let tstr = string_of(t.as_slice());
        match parse_json(tstr.as_str()) {
            Some(v) => {
                let s = string_of(sub.as_slice());
                let a = string_of(act.as_slice());
                match extract_aws_resources(s.as_str(), a.as_str(), &v) {
                    Some(e) => {
                        let ev = chars_of(e.as_str());
                        if byte_len(ev.as_slice()) < byte_len(t.as_slice()) {
                            e
                        } else {
                            output.to_owned()
                        }
                    },
                    None => output.to_owned(),
                }
            },
            None => output.to_owned(),
        }
    }
}


} // verus!
