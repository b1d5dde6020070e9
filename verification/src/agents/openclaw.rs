//! OpenClaw: the preToolUse rewrite script and the hook entries of
//! `openclaw.json` (`{"hooks": {"preToolUse": [..], "postToolUse": [..]}}`).
use vstd::prelude::*;
use crate::json::{
    Json, as_array, get, get_field, key_index, key_position, lemma_key_index_props,
    lemma_lookup_push, lemma_lookup_update, obj_lookup,
};
use crate::text::{chars_of, contains, contains_lit, eq_chars, push_str, string_of};

verus! {

pub struct OpenClawInstaller;

impl OpenClawInstaller {
    pub fn name(&self) -> (r: &'static str)
        ensures
            r@ == "OpenClaw"@,
    {
        "OpenClaw"
    }
}

pub open spec fn script_head() -> Seq<char> {
    "#!/usr/bin/env bash\n# PandaFilter OpenClaw preToolUse hook\n# Rewrites shell invocations for token savings.\n# ALWAYS exits 0 \u{2014} OpenClaw terminates on non-zero hook exit.\nINPUT=$(cat)\nCMD=$(echo \"$INPUT\" | jq -r '.tool_input.command // empty')\nif [ -z \"$CMD\" ]; then\n  echo '{\"decision\": \"allow\"}'\n  exit 0\nfi\nREWRITTEN=$(PANDA_SESSION_ID=$PPID \""@
}

pub open spec fn script_tail() -> Seq<char> {
    "\" rewrite \"$CMD\" 2>/dev/null) || {\n  echo '{\"decision\": \"allow\"}'\n  exit 0\n}\nif [ \"$CMD\" = \"$REWRITTEN\" ]; then\n  echo '{\"decision\": \"allow\"}'\n  exit 0\nfi\njq -n --arg cmd \"$REWRITTEN\" '{\n  \"decision\": \"allow\",\n  \"hookSpecificOutput\": {\n    \"tool_input\": {\"command\": $cmd}\n  }\n}'\n"@
}

/// The preToolUse script: it asks `<panda_bin> rewrite` for a rewritten
/// command and answers "allow", with the rewritten command when it differs.
pub fn generate_openclaw_rewrite_script(panda_bin: &str) -> (r: String)
    ensures
        r@ == script_head() + panda_bin@ + script_tail(),
{
    let mut s: Vec<char> = Vec::new();
    push_str(
        &mut s,
        "#!/usr/bin/env bash\n# PandaFilter OpenClaw preToolUse hook\n# Rewrites shell invocations for token savings.\n# ALWAYS exits 0 \u{2014} OpenClaw terminates on non-zero hook exit.\nINPUT=$(cat)\nCMD=$(echo \"$INPUT\" | jq -r '.tool_input.command // empty')\nif [ -z \"$CMD\" ]; then\n  echo '{\"decision\": \"allow\"}'\n  exit 0\nfi\nREWRITTEN=$(PANDA_SESSION_ID=$PPID \"",
    );
    push_str(&mut s, panda_bin);
    push_str(
        &mut s,
        "\" rewrite \"$CMD\" 2>/dev/null) || {\n  echo '{\"decision\": \"allow\"}'\n  exit 0\n}\nif [ \"$CMD\" = \"$REWRITTEN\" ]; then\n  echo '{\"decision\": \"allow\"}'\n  exit 0\nfi\njq -n --arg cmd \"$REWRITTEN\" '{\n  \"decision\": \"allow\",\n  \"hookSpecificOutput\": {\n    \"tool_input\": {\"command\": $cmd}\n  }\n}'\n",
    );
    string_of(s.as_slice())
}

/// The postToolUse command.
pub fn hook_command(panda_bin: &str) -> (r: String)
    ensures
        r@ == "PANDA_SESSION_ID=$PPID PANDA_AGENT=openclaw "@ + panda_bin@ + " hook"@,
{
    let mut s: Vec<char> = Vec::new();
    push_str(&mut s, "PANDA_SESSION_ID=$PPID PANDA_AGENT=openclaw ");
    push_str(&mut s, panda_bin);
    push_str(&mut s, " hook");
    string_of(s.as_slice())
}

/// The text of a hook entry; an entry that is no string reads as empty.
pub open spec fn hook_text(e: Json) -> Seq<char> {
    match e {
        Json::Str(s) => s@,
        _ => seq![],
    }
}

/// An entry that mentions neither `panda` nor `ccr`.
pub open spec fn foreign_hook(e: Json) -> bool {
    !contains(hook_text(e), "panda"@) && !contains(hook_text(e), "ccr"@)
}

/// The value of `hooks.<key>`.
pub open spec fn get_hook(root: Json, key: Seq<char>) -> Option<Json> {
    match get(root, "hooks"@) {
        Some(h) => get(h, key),
        None => None,
    }
}

/// The array `hooks.<event>`.
pub open spec fn hook_array(root: Json, event: Seq<char>) -> Option<Seq<Json>> {
    as_array(get_hook(root, event))
}

/// `new` is an object that differs from `old` at most in `hooks.<event>`.
pub open spec fn hooks_frame(old: Json, new: Json, event: Seq<char>) -> bool {
    &&& new is Object
    &&& forall|key: Seq<char>| key != "hooks"@ ==> #[trigger] get(new, key) == get(old, key)
    &&& forall|key: Seq<char>| key != event ==> #[trigger] get_hook(new, key) == get_hook(old, key)
}

/// `new_items` is `items` with the command added unless an entry already
/// reads as it.
pub open spec fn with_command(items: Seq<Json>, new_items: Seq<Json>, command: Seq<char>) -> bool {
    if exists|i: int| 0 <= i < items.len() && hook_text(#[trigger] items[i]) == command {
        new_items == items
    } else {
        &&& new_items.len() == items.len() + 1
        &&& new_items.take(items.len() as int) == items
        &&& new_items.last() is Str
        &&& hook_text(new_items.last()) == command
    }
}

/// Adding a command twice is adding it once.
pub proof fn lemma_with_command_once(items: Seq<Json>, a1: Seq<Json>, a2: Seq<Json>, command: Seq<char>)
    requires
        with_command(items, a1, command),
        with_command(a1, a2, command),
    ensures
        a2 == a1,
{
    if exists|i: int| 0 <= i < items.len() && hook_text(#[trigger] items[i]) == command {
        let i = choose|i: int| 0 <= i < items.len() && hook_text(#[trigger] items[i]) == command;
        assert(hook_text(a1[i]) == command);
    } else {
        assert(hook_text(a1[a1.len() - 1]) == command);
    }
}

proof fn lemma_filter_idempotent(s: Seq<Json>, p: spec_fn(Json) -> bool)
    ensures
        s.filter(p).filter(p) == s.filter(p),
    decreases s.len(),
{
    reveal(Seq::filter);
    if s.len() > 0 {
        lemma_filter_idempotent(s.drop_last(), p);
        let f = s.drop_last().filter(p);
        if p(s.last()) {
            assert(f.push(s.last()).drop_last() =~= f);
        }
    }
}

/// The same entry, strings compared by their text.
pub open spec fn same_entry(a: Json, b: Json) -> bool {
    a == b || (a is Str && b is Str && hook_text(a) == hook_text(b))
}

/// Registering a command again gives the array it gave the first time. A
/// command of this tool (naming `panda` or `ccr`) is removed and added back;
/// any other command is kept and not added twice; the other tools' entries
/// stay as they were.
pub proof fn lemma_register_again(items: Seq<Json>, a1: Seq<Json>, a2: Seq<Json>, command: Seq<char>)
    requires
        with_command(items.filter(|e: Json| foreign_hook(e)), a1, command),
        with_command(a1.filter(|e: Json| foreign_hook(e)), a2, command),
    ensures
        a2.len() == a1.len(),
        forall|i: int| 0 <= i < a1.len() ==> same_entry(#[trigger] a1[i], a2[i]),
{
    let p = |e: Json| foreign_hook(e);
    let f = items.filter(p);
    lemma_filter_idempotent(items, p);
    if contains(command, "panda"@) || contains(command, "ccr"@) {
        assert forall|i: int| 0 <= i < f.len() implies hook_text(#[trigger] f[i]) != command by {
            items.lemma_filter_pred(p, i);
            assert(p(f[i]));
        }
        assert(a1.drop_last() =~= f) by {
            assert(a1.take(f.len() as int) == f);
        }
        assert(!p(a1.last()));
        reveal(Seq::filter);
        assert(a1.filter(p) == a1.drop_last().filter(p));
        assert(a1.filter(p) == f.filter(p));
        assert(a1.filter(p) == f);
        assert(with_command(f, a2, command));
        assert forall|i: int| 0 <= i < a1.len() implies same_entry(#[trigger] a1[i], a2[i]) by {
            if i < f.len() {
                assert(a1[i] == a1.take(f.len() as int)[i]);
                assert(a2[i] == a2.take(f.len() as int)[i]);
            }
        }
    } else {
        if exists|i: int| 0 <= i < f.len() && hook_text(#[trigger] f[i]) == command {
            assert(a1 == f);
            let i = choose|i: int| 0 <= i < f.len() && hook_text(#[trigger] f[i]) == command;
            assert(a1.filter(p) == f);
            assert(hook_text(a1.filter(p)[i]) == command);
            assert(a2 == a1);
        } else {
            assert(a1.drop_last() =~= f) by {
                assert(a1.take(f.len() as int) == f);
            }
            assert(hook_text(a1.last()) == command);
            assert(p(a1.last()));
            reveal(Seq::filter);
            assert(a1.filter(p) == a1.drop_last().filter(p).push(a1.last()));
            assert(a1.drop_last().push(a1.last()) =~= a1);
            assert(a1.filter(p) == a1);
            let k = a1.len() - 1;
            assert(hook_text(a1.filter(p)[k]) == command);
            assert(a2 == a1);
        }
    }
}

/// A root `insert_hook_entry` can work on: an object whose `hooks`, when
/// present, is an object whose `<event>`, when present, is an array.
pub open spec fn hook_insertable(root: Json, event: Seq<char>) -> bool {
    &&& root is Object
    &&& get(root, "hooks"@) matches Some(h) ==> (h is Object && (get(h, event) matches Some(a)
        ==> a is Array))
}

fn foreign_entry(e: &Json) -> (b: bool)
    ensures
        b == foreign_hook(*e),
{
    match e {
        Json::Str(s) => {
            let v = chars_of(s.as_str());
            !contains_lit(v.as_slice(), "panda") && !contains_lit(v.as_slice(), "ccr")
        },
        _ => {
            let v: Vec<char> = Vec::new();
            assert(hook_text(*e) =~= v@);
            !contains_lit(v.as_slice(), "panda") && !contains_lit(v.as_slice(), "ccr")
        },
    }
}

fn keep_foreign(items: Vec<Json>) -> (r: Vec<Json>)
    ensures
        r@ == items@.filter(|e: Json| foreign_hook(e)),
{
    let ghost iv = items@;
    let ghost p = |e: Json| foreign_hook(e);
    let mut r: Vec<Json> = Vec::new();
    let mut src = items;
    let ghost mut k: int = 0;
    assert(iv.skip(0) =~= iv);
    assert(iv.take(0).filter(p) =~= Seq::<Json>::empty());
    while src.len() > 0
        invariant
            0 <= k <= iv.len(),
            k + src@.len() == iv.len(),
            src@ == iv.skip(k),
            p == (|e: Json| foreign_hook(e)),
            r@ == iv.take(k).filter(p),
        decreases src.len(),
    {
        proof {
            crate::text::lemma_filter_take(iv, p, k);
        }
        let e = src.remove(0);
        assert(e == iv[k]);
        if foreign_entry(&e) {
            r.push(e);
        }
        proof {
            assert(iv.skip(k).remove(0) =~= iv.skip(k + 1));
            k = k + 1;
        }
    }
    assert(iv.take(iv.len() as int) =~= iv);
    r
}

/// Removes from `hooks.<event>` every entry that mentions `panda` or `ccr`;
/// a root without such an array is left as it is.
pub fn remove_panda_entries(root: &mut Json, event: &str)
    ensures
        hook_array(*old(root), event@) is None ==> *final(root) == *old(root),
        hook_array(*old(root), event@) matches Some(items) ==> {
            &&& hook_array(*final(root), event@) == Some(items.filter(|e: Json| foreign_hook(e)))
            &&& hooks_frame(*old(root), *final(root), event@)
        },
{
    let present = match get_field(root, "hooks") {
        Some(h) => crate::json::array_of(get_field(h, event)).is_some(),
        None => false,
    };
    if !present {
        return;
    }
    let ghost old_root = *root;
    let mut r = Json::Null;
    std::mem::swap(&mut r, root);
    match r {
        Json::Object(mut es) => {
            let ghost e0 = es@;
            let k = key_position(&es, "hooks");
            proof {
                lemma_key_index_props(e0, "hooks"@);
            }
            let (hk, hv) = es.remove(k);
            match hv {
                Json::Object(mut hs) => {
                    let ghost h0 = hs@;
                    let j = key_position(&hs, event);
                    proof {
                        lemma_key_index_props(h0, event@);
                    }
                    let (ek, evv) = hs.remove(j);
                    match evv {
                        Json::Array(items) => {
                            let ghost iv = items@;
                            let kept = keep_foreign(items);
                            let ghost kv = kept@;
                            let ghost ek_v = ek;
                            hs.insert(j, (ek, Json::Array(kept)));
                            assert(hs@ =~= h0.update(j as int, (ek_v, Json::Array(kept))));
                            proof {
                                assert forall|key: Seq<char>| key != event@ implies #[trigger] obj_lookup(hs@, key) == obj_lookup(h0, key) by {
                                    lemma_lookup_update(h0, j as int, (ek_v, Json::Array(kept)), key);
                                }
                                lemma_lookup_update(h0, j as int, (ek_v, Json::Array(kept)), event@);
                            }
                        },
                        _ => {
                            assert(false);
                            hs.insert(j, (ek, evv));
                        },
                    }
                    let ghost h1 = hs@;
                    let ghost hk_v = hk;
                    let new_hooks = Json::Object(hs);
                    es.insert(k, (hk, new_hooks));
                    assert(es@ =~= e0.update(k as int, (hk_v, new_hooks)));
                    proof {
                        assert forall|key: Seq<char>| key != "hooks"@ implies #[trigger] obj_lookup(es@, key) == obj_lookup(e0, key) by {
                            lemma_lookup_update(e0, k as int, (hk_v, new_hooks), key);
                        }
                        lemma_lookup_update(e0, k as int, (hk_v, new_hooks), "hooks"@);
                    }
                    *root = Json::Object(es);
                },
                _ => {
                    assert(false);
                    es.insert(k, (hk, hv));
                    *root = Json::Object(es);
                },
            }
        },
        _ => {
            assert(false);
            *root = r;
        },
    }
}

fn has_command(items: &Vec<Json>, command: &str) -> (b: bool)
    ensures
        b == exists|i: int| 0 <= i < items@.len() && hook_text(#[trigger] items@[i]) == command@,
{
    let cv = chars_of(command);
    let mut i: usize = 0;
    while i < items.len()
        invariant
            i <= items.len(),
            cv@ == command@,
            forall|q: int| 0 <= q < i ==> hook_text(#[trigger] items@[q]) != command@,
        decreases items.len() - i,
    {
        let same = match &items[i] {
            Json::Str(s) => {
                let v = chars_of(s.as_str());
                eq_chars(v.as_slice(), cv.as_slice())
            },
            _ => {
                let v: Vec<char> = Vec::new();
                assert(hook_text(items@[i as int]) =~= v@);
                eq_chars(v.as_slice(), cv.as_slice())
            },
        };
        if same {
            return true;
        }
        i += 1;
    }
    false
}

/// Adds the command to `hooks.<event>` unless an entry already reads as
/// it, creating `hooks` and the array when missing.
pub fn insert_hook_entry(root: &mut Json, event: &str, command: &str)
    requires
        hook_insertable(*old(root), event@),
    ensures
        hooks_frame(*old(root), *final(root), event@),
        hook_array(*final(root), event@) matches Some(new_items) && with_command(
            match hook_array(*old(root), event@) {
                Some(a) => a,
                None => seq![],
            },
            new_items,
            command@,
        ),
{
    let ghost old_root = *root;
    let mut r = Json::Null;
    std::mem::swap(&mut r, root);
    match r {
        Json::Object(mut es) => {
            let ghost e_orig = es@;
            let mut k = key_position(&es, "hooks");
            proof {
                lemma_key_index_props(e_orig, "hooks"@);
            }
            if k == es.len() {
                es.push(("hooks".to_owned(), Json::Object(Vec::new())));
                proof {
                    assert forall|key: Seq<char>| key != "hooks"@ implies #[trigger] obj_lookup(es@, key) == obj_lookup(e_orig, key) by {
                        lemma_lookup_push(e_orig, es@.last(), key);
                        assert(e_orig.push(es@.last()) =~= es@);
                    }
                    reveal_strlit("hooks");
                    lemma_key_index_props(es@, "hooks"@);
                    lemma_lookup_push(e_orig, es@.last(), "hooks"@);
                    assert(e_orig.push(es@.last()) =~= es@);
                }
                k = key_position(&es, "hooks");
            }
            let ghost e0 = es@;
            proof {
                lemma_key_index_props(e0, "hooks"@);
            }
            let (hk, hv) = es.remove(k);
            let ghost hv_old = hv;
            let new_hooks = match hv {
                Json::Object(mut hs) => {
                    let ghost h_orig = hs@;
                    let mut j = key_position(&hs, event);
                    proof {
                        lemma_key_index_props(h_orig, event@);
                    }
                    if j == hs.len() {
                        let ev_name = string_of(chars_of(event).as_slice());
                        hs.push((ev_name, Json::Array(Vec::new())));
                        proof {
                            assert forall|key: Seq<char>| key != event@ implies #[trigger] obj_lookup(hs@, key) == obj_lookup(h_orig, key) by {
                                lemma_lookup_push(h_orig, hs@.last(), key);
                                assert(h_orig.push(hs@.last()) =~= hs@);
                            }
                            lemma_lookup_push(h_orig, hs@.last(), event@);
                            assert(h_orig.push(hs@.last()) =~= hs@);
                        }
                        j = key_position(&hs, event);
                    }
                    let ghost h0 = hs@;
                    proof {
                        lemma_key_index_props(h0, event@);
                    }
                    let (ek, evv) = hs.remove(j);
                    let new_arr = match evv {
                        Json::Array(mut items) => {
                            let ghost iv = items@;
                            if !has_command(&items, command) {
                                items.push(Json::Str(string_of(chars_of(command).as_slice())));
                                assert(items@.take(iv.len() as int) =~= iv);
                            }
                            Json::Array(items)
                        },
                        other => {
                            assert(false);
                            other
                        },
                    };
                    let ghost ek_v = ek;
                    hs.insert(j, (ek, new_arr));
                    assert(hs@ =~= h0.update(j as int, (ek_v, new_arr)));
                    proof {
                        assert forall|key: Seq<char>| key != event@ implies #[trigger] obj_lookup(hs@, key) == obj_lookup(h0, key) by {
                            lemma_lookup_update(h0, j as int, (ek_v, new_arr), key);
                        }
                        lemma_lookup_update(h0, j as int, (ek_v, new_arr), event@);
                    }
                    Json::Object(hs)
                },
                other => {
                    assert(false);
                    other
                },
            };
            let ghost hk_v = hk;
            es.insert(k, (hk, new_hooks));
            assert(es@ =~= e0.update(k as int, (hk_v, new_hooks)));
            proof {
                assert forall|key: Seq<char>| key != "hooks"@ implies #[trigger] obj_lookup(es@, key) == obj_lookup(e0, key) by {
                    lemma_lookup_update(e0, k as int, (hk_v, new_hooks), key);
                }
                lemma_lookup_update(e0, k as int, (hk_v, new_hooks), "hooks"@);
            }
            *root = Json::Object(es);
        },
        _ => {
            assert(false);
            *root = r;
        },
    }
}


/// The entries left after removing those that mention `panda` or `ccr`.
pub open spec fn foreign_only(o: Option<Seq<Json>>) -> Option<Seq<Json>> {
    match o {
        Some(items) => Some(items.filter(|e: Json| foreign_hook(e))),
        None => None,
    }
}

proof fn lemma_insertable_after(old: Json, new: Json, event: Seq<char>, other: Seq<char>)
    requires
        hook_insertable(old, other),
        hooks_frame(old, new, event),
        hook_array(new, event) is Some,
        event != other,
    ensures
        hook_insertable(new, other),
{
    assert(get_hook(new, other) == get_hook(old, other));
    match get(new, "hooks"@) {
        Some(h) => {
            assert(get(h, event) is Some);
            assert(h is Object);
        },
        None => {},
    }
}

/// Removes this tool's entries from the preToolUse and postToolUse hooks,
/// leaving everything else as it was.
pub fn unregister_hooks(root: &mut Json)
    ensures
        hook_array(*final(root), "preToolUse"@) == foreign_only(hook_array(*old(root), "preToolUse"@)),
        hook_array(*final(root), "postToolUse"@) == foreign_only(hook_array(*old(root), "postToolUse"@)),
        forall|key: Seq<char>| key != "hooks"@ ==> #[trigger] get(*final(root), key) == get(*old(root), key),
        forall|key: Seq<char>|
            key != "preToolUse"@ && key != "postToolUse"@ ==> #[trigger] get_hook(*final(root), key)
                == get_hook(*old(root), key),
{
    proof {
        reveal_strlit("preToolUse");
        reveal_strlit("postToolUse");
        assert("preToolUse"@.len() != "postToolUse"@.len());
    }
    remove_panda_entries(root, "preToolUse");
    remove_panda_entries(root, "postToolUse");
}

/// Registers the rewrite script as a preToolUse hook and the compression
/// command as a postToolUse hook, after removing this tool's earlier
/// entries; everything else stays as it was.
pub fn register_hooks(root: &mut Json, script_path: &str, panda_bin: &str)
    requires
        hook_insertable(*old(root), "preToolUse"@),
        hook_insertable(*old(root), "postToolUse"@),
    ensures
        hook_array(*final(root), "preToolUse"@) matches Some(a) && with_command(
            match foreign_only(hook_array(*old(root), "preToolUse"@)) {
                Some(x) => x,
                None => seq![],
            },
            a,
            script_path@,
        ),
        hook_array(*final(root), "postToolUse"@) matches Some(a) && with_command(
            match foreign_only(hook_array(*old(root), "postToolUse"@)) {
                Some(x) => x,
                None => seq![],
            },
            a,
            "PANDA_SESSION_ID=$PPID PANDA_AGENT=openclaw "@ + panda_bin@ + " hook"@,
        ),
        hook_insertable(*final(root), "preToolUse"@),
        hook_insertable(*final(root), "postToolUse"@),
        forall|key: Seq<char>| key != "hooks"@ ==> #[trigger] get(*final(root), key) == get(*old(root), key),
        forall|key: Seq<char>|
            key != "preToolUse"@ && key != "postToolUse"@ ==> #[trigger] get_hook(*final(root), key)
                == get_hook(*old(root), key),
{
    proof {
        reveal_strlit("preToolUse");
        reveal_strlit("postToolUse");
        assert("preToolUse"@.len() != "postToolUse"@.len());
    }
    let ghost r0 = *root;
    remove_panda_entries(root, "preToolUse");
    let ghost r1 = *root;
    remove_panda_entries(root, "postToolUse");
    let ghost r2 = *root;
    proof {
        if hook_array(r0, "preToolUse"@) is Some {
            lemma_insertable_after(r0, r1, "preToolUse"@, "postToolUse"@);
        }
        if hook_array(r1, "postToolUse"@) is Some {
            lemma_insertable_after(r1, r2, "postToolUse"@, "preToolUse"@);
        }
    }
    let cmd = hook_command(panda_bin);
    insert_hook_entry(root, "preToolUse", script_path);
    let ghost r3 = *root;
    proof {
        lemma_insertable_after(r2, r3, "preToolUse"@, "postToolUse"@);
    }
    insert_hook_entry(root, "postToolUse", cmd.as_str());
}

} // verus!
