//! The modelling rules and the rules of the working loop.
//!
//! Each rule is an entry of its own: a text names the slugs of the rules it depends on,
//! and a rule cites another as `[[slug]]`, so that a reader pulls the guidance it is
//! about to need and no more.

use crate::bytes::{byte_len, bytes_in};
use crate::letters::{alphanumeric, is_alnum, lower_text, lowercase};
use crate::modelled::{at, fresh, put, Modelled};
use crate::text::{
    chars_of, decimal, end_of, join, joined, reads, reads_at, same_text, text_of, trim, trimmed,
    trimmed_end,
};
use vstd::prelude::*;
use vstd::string::*;

verus! {

/// The rules: number, slug, title, tags, body. A slug is never renumbered and never
/// used again.
pub const RULES: [(u8, &'static str, &'static str, &'static str, &'static str); 50] = [
    (
        1,
        "statement-business",
        "Responsibilities are pure business statements",
        "responsibility, business, mechanism, directives, wording",
        r#"A responsibility says what a node is accountable for in business terms — not how it does it. "restricts access to private content" — yes. "restricts access via JWT" — no, the "via JWT" is mechanism. Same for technology names, library calls, specific protocols. Keep mechanism out of the statement entirely. The `directives` field beside a responsibility holds prescriptive "must"/"never" constraints ("must verify ownership server-side", "never trust a client-supplied role") — but directives are authored by the user, not the agent. Treat any directives present as binding constraints you must satisfy when implementing; write, edit, or delete them only when the user explicitly asks for it. Where reality discharges a responsibility belongs in the source map, not in directives."#,
    ),
    (
        2,
        "node-justification",
        "Every node justifies its existence through responsibilities it serves",
        "node, responsibility, vagrant, prune, empty, justification",
        r#"A child node exists to discharge a subset of its parent's responsibilities. A node with no responsibility, or whose responsibilities serve no ancestor commitment, is structurally vagrant — prune it or restate its purpose."#,
    ),
    (
        3,
        "altitude",
        "Decompose for checkability — keep each node's responsibilities at its OWN altitude",
        "decomposition, altitude, scope, responsibility, parent, child, tree",
        r#"A responsibility names one accountability the node holds, never the handler that discharges it; the handlers are the children one level down (a container's components, a component's symbols). A parent provides the HIGHER-LEVEL responsibilities that DECOMPOSE INTO its children's — it never simply iterates or restates them. So a parent's responsibilities are FEWER and BROADER than the union of its children's, never a per-child enumeration of what each child does ("Provides themed form controls" — yes; "Provides Button, Input, Select, Checkbox…" — no, that is the children listed, not an accountability). Test each line: if it reads as describing a single child, or as a roster of them, it is one altitude too low — lift it to the accountability those children collectively serve, or push it down onto the child. A parent that enumerates its children is the PARENT mis-scoped: lift its responsibilities. Do NOT conclude the children are redundant just because the parent lists them — whether each child earns its own node is a separate test (see [[symbols]]). If a responsibility is too coarse to verify at the parent's altitude, add child nodes whose responsibilities together discharge it. The node tree IS the responsibility tree, refined downward."#,
    ),
    (
        4,
        "groups",
        "Groups organize peers along a secondary axis — never a substitute for parent/child decomposition",
        "group, grouping, logical, architectural, deployment, peers",
        r#"If the members only make sense as parts of the group, not as independent entities, the group is a missing parent node — promote it and make the members children. Two flavors: **Logical** (no responsibilities) — organizational signal like team ownership, feature areas, or module colocation. Agents should respect these when structuring code (e.g. keeping grouped components in the same directory) even though the group carries no explicit commitments. **Architectural** (has responsibilities) — a cross-cutting concern like a deployment boundary. Responsibilities describe what the *grouping relationship* enforces, not what individual members do."#,
    ),
    (
        5,
        "one-link",
        "One link per relationship",
        "link, relationship, direction, edge",
        r#"Direction points from initiator/requester toward provider/dependency. Two links between the same pair of nodes are valid only when they represent independent relationships."#,
    ),
    (
        6,
        "containers",
        "Containers are runtime boundaries",
        "container, runtime, deployment, process, boundary, webview",
        r#"Each separately deployable process is at least one container. An embedded runtime (e.g. a webview inside a native shell, a scripting engine inside a host process) is NOT a separate container — it is a component of the host container. Group containers that deploy together."#,
    ),
    (
        7,
        "components",
        "Components map to code structures (classes, modules, packages, folders)",
        "component, code, module, package, library, third-party",
        r#"Third-party libraries are not components — they're implementation details mentioned in `technology`. Cluster components from code cohesion and the dependency graph, NOT one component per file."#,
    ),
    (
        8,
        "symbols",
        "Code level uses only the `symbol` kind",
        "symbol, code, definition, function, class, struct, interface, type, properties, data, schema, wrapper, scoping, empty, config, main, entry-point, binary, bootstrap",
        r#"A `symbol` is exactly one addressable code definition — a function, method, handler, hook, React component, class, struct, interface, type, or config object. One symbol node = one definition in the source; its name must be the identifier as it appears in the code. A definition earns a symbol node only when it carries architecture — a behavioral responsibility at its OWN altitude, or a declared data shape. A cross-boundary link alone does NOT justify a symbol: a link is a relationship between nodes that already exist for their own reasons, never a reason to mint one. So an otherwise-empty symbol (no responsibility, no data shape) is never kept just because something links to it — fold it away. Being a real, public definition is NOT sufficient either: a wrapper, re-export, getter/setter, or test stub that discharges NO distinct responsibility folds into its component's responsibilities rather than minting a leaf. An executable entry point is one of these: `main` (or any top-level binary entry that only wires up and dispatches the program's work) carries the binary's behavior at the COMPONENT's altitude, not a sub-altitude — fold its responsibility into the component that represents that binary (the example, CLI, or bootstrap IS that single unit of architecture) rather than minting a `main` leaf; helper definitions in the same binary that hold their own distinct responsibility still earn their nodes. But the fold test is about ARCHITECTURE, not implementation size: thinness of the body is NEVER by itself grounds to fold — a three-line function that crosses a boundary (an IPC command, an API endpoint, a contract surface) or holds any distinct own-altitude accountability earns its node however few lines it is. And the two operations are NOT symmetric: declining to MINT a node for an empty definition at extraction time is cheap and reversible; DELETING an existing symbol that carries — or, mapping to real code, SHOULD carry — a distinct responsibility destroys authored architecture and its source anchor, so it demands a far higher bar. A symbol that maps to real own-altitude behavior is DEFINED — give it the responsibility — never deleted; an empty model slot for such a symbol means not-yet-authored, not absent, so "define or delete" resolves to DEFINE. A parent responsibility that enumerates the symbol ("reads, writes, and deletes …") is NOT evidence the symbol is covered: that is the parent mis-scoped (see [[altitude]]), never a license to prune the child. Fold generated mirror types (`*-types`, `*.d.ts`) into the source-of-truth symbol and leave private helper methods out. Prefer a component with a handful of meaningful symbols over one mirroring every definition in its files. A symbol has two independent facets; most carry one, some carry both:
- **responsibilities** — the behavior the definition discharges. Map each to the specific LINE RANGE that does its work (with the enclosing `symbol` named as anchor and context). A line range must be a PROPER subset of the symbol; when one responsibility is the whole definition's work, omit `line`/`endLine` entirely — a symbol-only anchor means "this whole definition". `update_source_map` enforces this: a range covering the whole symbol is stripped to the symbol anchor and reported. Two responsibilities sharing an enclosing symbol must point at different line ranges; if they point at the identical range they are one responsibility.
- **properties** — when the definition DECLARES A DATA SHAPE (a struct/class/interface/type, or a config object that defines a field schema), list its fields here: one property per field. Map the declaration to the symbol's node id via the `schemas` source array (not `entries`).
NEVER describe a data shape in a responsibility statement. "Defines the lead record schema with status, qualification, and booking fields" is WRONG — that prose belongs nowhere; enumerate `status`, `qualification`, `booking`, … as actual `properties`. A config object that both wires behavior and declares fields (e.g. an ORM/CMS collection that registers admin UI and lifecycle hooks AND defines the record's fields) gets BOTH facets: behavioral responsibilities for the hooks/UI, and a property per declared field — and those properties are the declared FIELDS (the record's columns), never the config wrapper keys (slug/admin/hooks/access). A pure data type carries only properties. Symbols carry no boundary glob (that is a container/component concept). **Scoping**: determine parentage from the import/usage graph, not from file co-location. A code-level node belongs to whichever component actually consumes it. If multiple components import the same code, parent it to the one that owns/defines it and add links from the others — the cross-boundary dependency is valuable signal."#,
    ),
    (
        9,
        "externals",
        "External systems (`external: true`) are opaque, no children",
        "external, system, third-party, opaque",
        r#"Any responsibilities listed on an external are read as expectations of that external, not commitments by your system."#,
    ),
    (
        10,
        "mentions-imply-links",
        "Mentions imply links",
        "link, mention, responsibility, reference, description",
        r#"A responsibility statement (or a `description`) that names another node requires a structural link to it. The prose mention and the structural link are distinct concerns — naming a node in prose never substitutes for the link the mention implies; declare both."#,
    ),
    (
        11,
        "system-boundary",
        "System boundary = ownership boundary",
        "system, boundary, ownership, deployment",
        r#"Everything you build and deploy from one codebase is containers inside one system. "Separate deployment unit" does NOT mean "separate system.""#,
    ),
    (
        12,
        "technology",
        "`technology` is node identity",
        "technology, identity, directives",
        r#"`technology` is what the node IS as software ("Payload 3.0", "PostgreSQL 16", "S3 Bucket"). Separate from `directives` on responsibilities, which are user-authored constraints prescribing how a responsibility must be discharged — set by the agent only at the user's explicit request. Do not put technology vocabulary inside responsibility statements."#,
    ),
    (
        14,
        "vagrant-stale",
        "Observation flags: vagrant and stale",
        "vagrant, stale, drift, discovered, flag, observation",
        r#"Flags are machine/agent observations awaiting the user's verdict — a separate axis from the model→code plan (which the diff between the committed model and the planned draft already captures). `vagrant`: marks responsibilities discovered in code that no upstream commitment justifies; added by automation as a code-discovered claim flagged `vagrant: true`; the user adopts it (clear the flag) or rejects it (delete it, signaling the agent to remove the code). `stale`: set by the drift check on a responsibility whose code no longer discharges it; awaiting a verdict — re-implement (`mark_implemented` clears it), reword, or delete."#,
    ),
    (
        15,
        "scanning",
        "Write for scanning, not prose",
        "responsibility, wording, scanning, description, concise",
        r#"A responsibility is ONE verb-led clause: lead with the specific verb + object that distinguishes it, then stop. Cut words that merely restate the node's own domain — in an architecture tool every line is about "the architecture model", so naming it adds nothing — and cut trailing "by/through/where/so that …" clauses (mechanism belongs out per [[statement-business]]; the obvious belongs cut). A genuine trigger or state condition is NOT such a tail — it moves to the FRONT in its EARS keyword form (see [[statement-ears]]). "Renders the node/link/group canvas" — yes. "Renders the visual architecture editor where users arrange nodes, links, and groups on a canvas" — no. A `description` is the node's IDENTITY in a few words (what it IS as software), never a summary of the responsibilities listed beneath it; if it reads as a comma-list of those responsibilities, drop it."#,
    ),
    (
        16,
        "links-same-level",
        "Relationships connect nodes at the same C4 level",
        "link, level, reference, propagate, external, validate, disconnected",
        r#"Each diagram tells one level of the story, and `add_links` ENFORCES this (an illegal link is rejected, not saved). A link is legal only when src and dst are siblings (same parent), OR the deeper node's parent already links to the other node — which makes that node a *reference* on the deeper node's surface. References thus propagate DOWN from higher-level links: at system context a person/external links to the SYSTEM; to also wire it to a specific container or component, the relationship must exist at every level in between. So when an external is used deep inside your system, add the link at EACH level: system→external, then container→external, then component→external — each one authorizes the next. Two consequences: (a) you cannot link a deep node straight to a top-level external without the intervening links — add them parent-first (a single `add_links` batch may include all the levels at once); (b) every node down to component level still needs a relationship at its OWN level, or it appears disconnected on its own diagram — symbols are exempt: they justify themselves through their claims (see [[symbols]]), and the code-level graph is legitimately sparse. You may model a relationship only as deep as it is useful — a `container → external` link need not be refined to the component that calls it; the external simply won't appear inside the container view until a component links to it, and that is fine. Never link a node to its own ancestor/descendant — nesting already expresses containment. Run `validate_model` and fix every warning before finishing."#,
    ),
    (
        17,
        "naming",
        "Names and language: simple, clear, concise — clarity is paramount",
        "naming, names, clarity, language, simple, concise, wording, description, terminology, jargon, readable",
        r#"The model exists to make the architecture understood, so clarity of understanding is the highest goal — every name, description, and responsibility must be immediately legible to a reader who does NOT already know the system. Prefer the plainest word that is still precise: simple over clever, concrete over abstract, short over long. A name says what the thing IS in the domain's own vocabulary — no cute coinages, no internal codenames, no needless abbreviations or acronyms; use the SAME term for the same concept everywhere (consistent vocabulary beats variety). Cut every word that doesn't change the meaning. The test: if a reader has to pause to decode a name or read a sentence twice, rewrite it until they don't. This principle governs all authored text — [[scanning]] gives the responsibility-statement mechanics, see [[statement-business]] keeps mechanism out of responsibilities, and symbol names are the exception that proves it: they must be the exact code identifier (see [[symbols]]), clarity there coming from the code itself."#,
    ),
    (
        18,
        "build-in-layers",
        "Building in layers — commit the skeleton, split coarse claims",
        "partial, scaffold, scaffolding, layer, layered, commit, committed, pending, skeleton, status, mark_implemented, incremental",
        r#"A node's presence in the COMMITTED model asserts only that its boundary exists and that its OWN committed responsibilities hold — NOT that everything beneath it is built. A structural node (any node with children) discharges its responsibilities THROUGH its subtree (see [[altitude]]): committing it never claims its unbuilt descendants exist. Unbuilt children simply stay in the plan and roll up as pending. So when you build bottom-up or one slice at a time, DO commit the skeleton you actually built — the spine of nodes plus each responsibility whose code exists — and leave the rest in the plan. The plan↔committed split IS how a partial build is represented; there is no separate status to set and nothing dishonest about it. `mark_implemented` takes `responsibilityIds` precisely for this: fold the responsibilities you finished, not the whole node. A node whose subtree mixes built and unbuilt work shows an intermediate completeness in `get_health` — its anchored primitives over its authored ones (see [[anchor-completeness]]) — the correct, honest state for a layered build, never a problem to avoid by withholding the node. The one real over-assertion trap is a SINGLE responsibility that bundles built + unbuilt behaviour ("streams a reply, invokes tools, and returns structured output" when only streaming exists): folding it claims code that isn't there, withholding it blocks the whole node. Do neither — that statement is one altitude too coarse (see [[altitude]], [[scanning]]). SPLIT it into the built accountability and the unbuilt one(s), commit the built half, leave the rest pending. Never withhold the structural spine just because a responsibility below it is unfinished."#,
    ),
    (
        19,
        "anchor-completeness",
        "Anchor only what's implemented — the anchor is the completeness signal",
        "anchor, anchored, source-map, sourcemap, completeness, percent, coverage, implemented, scaffold, scaffolding, boundary, glob, primitive",
        r#"An anchor — a responsibility's or symbol's `source_map` file:line, a container/component's boundary glob — records that REAL code discharges the claim. So NEVER anchor a claim you have not implemented yet. Authoring the plan is anchorless; anchoring is the BUILD checkpoint, the act of recording "this exists, here". That discipline makes anchoring the completeness signal: a node's completeness is its ANCHORED primitives over its AUTHORED ones (committed + planned), rolled up over the subtree. The countable primitives are each node's own anchor (a container/component's boundary glob — "the box"; a symbol's definition), each LEAF responsibility, and each data-shape property set. A structural node's OWN responsibilities are NOT counted — they discharge through the subtree (see [[altitude]]). So a container you have scaffolded — boundary glob set over the real directory, but its responsibilities and children not yet anchored — reads as a LOW, non-zero completeness: instantly legible as "scaffolded, not built out". As you implement and anchor each leaf, the number climbs; a node with no anchorable leaf primitives beneath it yet is unmeasured (—), not complete. On a greenfield model nothing is anchored and the denominator is the authored plan, so everything reads 0% — correct: fully specced, nothing built. Because you never anchor vapor, "anchored" is a trustworthy proxy for "implemented" — but it certifies the code EXISTS, not that it fully satisfies the claim: a claim whose code only half-discharges it is still one altitude too coarse (see [[build-in-layers]]), so split it."#,
    ),
    (
        20,
        "concerns",
        "Concerns tag cross-cutting accountability — at most one per responsibility",
        "concern, concerns, tag, cross-cutting, auth, facet, lens, idempotency, observability",
        r#"A responsibility may carry ONE `concern` — a kebab-case slug naming the cross-cutting concern it serves. The standard vocabulary: `auth`, `persistence`, `failure-handling`, `idempotency`, `validation`, `observability`, `performance`, `compliance`. Tag every responsibility that discharges a cross-cutting concern as you author or edit it; leave a node's core domain flow UNTAGGED — no tag means "this is the main behavior", and that absence is signal, not an omission. Reuse before minting: check the model's concern registry and the standard slugs first, and use the SAME slug for the same concern everywhere ([[naming]]'s consistent-vocabulary test) — mint a new slug only for a genuinely distinct concern, and keep it short and domain-generic ("rate-limiting", not "api-rate-limits"). Exactly one concern per responsibility: a statement that seems to need two bundles two accountabilities — split it (see [[altitude]], [[scanning]]). The concern is metadata BESIDE the statement, never wording inside it: with the tag carrying the category, purpose clauses like "…so duplicates aren't reprocessed" are redundant — cut them (see [[scanning]]). Registry entries (slug, description, icon) mint automatically on first use; the user curates them — never edit or delete a registry entry's description or icon yourself."#,
    ),
    (
        21,
        "statement-ears",
        "Statements speak EARS — condition first, response last, markup on the anchors",
        "ears, grammar, statement, condition, trigger, event, state, failure, keyword, markup, bold, wording, split, compound",
        r#"A responsibility statement follows EARS (Easy Approach to Requirements Syntax) with the subject dropped: the owning node IS the subject, so never name it and never write "shall". Clause order is FIXED — optional condition first, verb-led response last:
- Ubiquitous (always active): no keyword, just the verb-led response — exactly [[scanning]]'s form. "Authenticate every inbound POST."
- Event-driven: "When <trigger>, <response>."
- State-driven: "While <state>, <response>."
- Unwanted behaviour (failure/rejection handling): "If <condition>, then <response>."
- Optional feature: "Where <feature is present>, <response>" — legal EARS, rarely earned here; prefer modeling the feature as structure.
Clauses stack in that order when a claim genuinely needs both: "While <state>, when <trigger>, <response>". The ubiquitous form is EARNED, never the default: before leaving a claim plain, check whether it actually holds only on a trigger, state, or failure — if so, it MUST take the keyword form; a condition written as a tail ("…after acking the webhook") moves to the front in its keyword form. One pattern per claim: a statement that bundles a happy path with its rejection ("echo the challenge when the token matches, else reject with 403") is TWO claims — the When and the If — split it (see [[altitude]], [[scanning]]). Compound responses split the same way: two verbs acting on two different objects ("persist the results and sync labels to HubSpot") is TWO claims — bolding both verbs is NOT a substitute for splitting; only a genuinely atomic verb pair on one object stays together. A rationale tail ("…so sales receives only qualified ones") is not part of the response — cut it or move it to the description (see [[scanning]]).
Statements also carry a markdown-lite display markup the UI renders — and strips for comparison, search, and word-diffing, so it is presentation, never meaning. Wrap the scan anchors — the grammar keywords (including "then") and the response verb — in **bold**, and NOTHING else: "**When** a send-failure status callback arrives, **append** a failed-send event". A ubiquitous claim bolds its leading verb: "**Authenticate** every inbound POST". Never wrap the condition clause or any other run of text in markers — the keyword and its comma already delimit the clause. Markup belongs in responsibility statements ONLY — never in directives, descriptions, names, or properties."#,
    ),
    (
        22,
        "test-attachment",
        "Attach tests to the claims you implement — mandatory for symbols, expected everywhere testable",
        "test, tests, attached, attach, tested, testable, untested, test-map, unit, integration",
        r#"A claim either HAS tests attached or it DOESN'T — that binary is the model's highest-trust signal, because an attached test is the one artifact that at least ATTEMPTS to hold the code to the claim's words. Scryer never RUNS tests itself — attachment makes the test findable so a human can audit it — but it does track VERDICTS: ingest a run's JUnit report (`ingest_test_report`) and each attached test's outcome is recorded against its claim, fingerprint-keyed so a later edit to the implementation or the test flips the verdict to stale; `get_test_radius` then names exactly the test files whose claims hold missing or stale verdicts — run those, never the whole suite. A claim in a When/While/If form (see [[statement-ears]]) names a concrete trigger, state, or failure, so a test can exercise it mechanically: arrange the condition, assert the response. When you implement such a claim, write that test in the project's own test suite and attach it in the SAME `mark_implemented` call (`tests`, alongside `anchors`) — implementing and attaching are one checkpoint, not two passes. On a SYMBOL host this is mandatory: a symbol-level testable claim is exactly a unit test's shape, so never fold one without its test. Higher-altitude claims take the kind of test that fits the altitude — component → integration, container → API/service, system → end-to-end. Health counts the gap deterministically: `tested` (claims with a test attached), `testable` (When/While/If claims on code-backed hosts), `untested` (testable claims with no test attached); drive `untested` toward zero on the scopes you build. The attached test must actually exercise the claim — its trigger arranged, its response asserted; never attach a test that merely touches the same code to clear the counter, and never attach one test to many claims it doesn't exercise. Anchor the test by its NAME: `symbol` takes the `it("…")`/`test("…")` description string or the test function's identifier — both resolve and fingerprint the same way. A ubiquitous (verb-led) claim may still deserve a test — that stays a judgment call; attach it the same way (or later via `update_source_map` `test_entries`). The attachment is a link, never executed — but it is fingerprint-tripwired like any anchor: when the test's code changes or vanishes, the claim's test anchor surfaces in health (`test:{id}`), so a silently rotted test is visible without running anything."#,
    ),
    (
        23,
        "loop-orient",
        "ORIENT — find which phase you are in before touching anything",
        "orient, phase, start, entry, locate, health, directives",
        r#"Figure out which phase you're in first. For a CODING task, start from `orient {task, files}` — one call returns the governing nodes, their claims and binding directives, the scoped pending items and drift, the matching rule slugs, and which phase you're in ([[orient-phases]]). `locate {file, symbol?}` is its single-file sibling. `get_health` reports how well the COMMITTED model maps to code, so it is the right entry point only once code exists: if committed is empty (a design-first model whose whole architecture lives in the plan, before anything is built), it has nothing to report — `get_pending` and `read_model` show the authored plan; never read an empty health report as "nothing authored". The whole-model reads are for model-building sessions: lead with `get_health` to see where work is needed ([[health-reading]]), then `search_model` / `read_model` to load the governing nodes, their responsibilities, and any binding `directives` ([[directives-binding]])."#,
    ),
    (
        24,
        "loop-plan",
        "PLAN — author the intended change into the model before writing code",
        "plan, planned, intent, author, draft, change",
        r#"Author the intended change into the model BEFORE writing code: add/extend the nodes, responsibilities, and links it implies, at the right altitude ([[altitude]]), with the intent tools (`add_person` / `add_system` / `add_container` / `add_component` / `add_symbol`, `update_nodes`, `add_links`, …). These write the PLAN — a draft on the user's canvas — not code ([[model-layers]]). If the change conflicts with an existing responsibility or directive, surface it; don't silently diverge. Every plan write lands in the session's open change ([[change-ledger]]); with none open the write is refused, so `open_change {rationale}` comes first. Only changes that alter what the model claims need a plan entry at all ([[proportionality]])."#,
    ),
    (
        25,
        "loop-sign-off",
        "SIGN-OFF — the plan is a proposal until the user approves it",
        "sign-off, approve, go-ahead, proposal, user",
        r#"The plan is a proposal on the user's canvas; before building it, tell the user what you planned and get their go-ahead. The user owns the spec ([[user-owns-intent]]) — skip this only when they already approved the change in this conversation or explicitly told you to run ahead. Record the go-ahead with `sign_off`: it snapshots the change as the approved intent, and from then on a claim you reword or add under it lands as vagrant for the developer's verdict at the fold — it does not fold ([[sign-off]], [[fold-after-sign-off]])."#,
    ),
    (
        26,
        "loop-build",
        "BUILD — implement to the plan, each claim with its test",
        "build, implement, code, test, write",
        r#"Implement the code to that plan, responsibility by responsibility, WITH ITS TESTS: for each testable (When/While/If) claim you implement, the statement already names the trigger, state, or failure to arrange and the response to assert — write that test in the project's own suite as part of the same work. On symbol-level claims the test is MANDATORY ([[test-attachment]]); at higher altitudes attach the kind of test that fits (component → integration, container → API/service, system → end-to-end). Never anchor a claim you have not implemented: anchoring is the build checkpoint ([[anchor-completeness]])."#,
    ),
    (
        27,
        "loop-close",
        "CLOSE — fold what you built, verify its tests, reconcile, continue",
        "close, fold, mark_implemented, verify, reconcile, finish",
        r#"`mark_implemented` what you built (folds it from the plan into the committed model), passing `anchors` and `tests` so fold + anchor + attach is one atomic call, and `flag_drift` anything the code does that the plan didn't capture. The fold is gated on evidence ([[fold-evidence-gate]]); claims reworded or added after sign-off wait for the developer ([[fold-after-sign-off]]); you may fold a node in layers ([[fold-in-layers]]); the response ends with a scoped post-flight to act on ([[fold-post-flight]]). `mark_implemented {change}` folds exactly the session's change; when the last entry folds the change closes and its rationale is recorded in the history log. A change that filed nothing (a bugfix, a refactor) is closed by hand with `close_change {change_id}` so the rationale is still recorded. Then VERIFY: `get_test_radius` names the test files your change invalidated (missing or stale verdicts) — run exactly those with the runner's JUnit reporter on and `ingest_test_report` each report file, so the claims' verdicts are current before you move on ([[test-verdicts]]). Then reconcile and continue: `reconcile_drift` advances the anchor once the scope is clean, and the next responsibility starts the loop again at BUILD."#,
    ),
    (
        28,
        "proportionality",
        "Proportionality — what earns a plan entry",
        "proportionality, ceremony, bugfix, refactor, chore, spike, plan-entry",
        r#"Match the ceremony to the change; the full loop is for changes that alter what the model claims. A change is opened for every task regardless ([[change-ledger]]) — the ledger records what was done even when nothing is filed under it, and an empty one is closed with `close_change` at the end. NO plan entry is needed for: bugfixes that restore behaviour the model already claims, pure refactors (moved-but-unchanged symbols re-anchor themselves), or docs/tests/chores. A plan entry IS needed for: new, changed, or removed responsibilities; new nodes; changed links. For exploratory spikes, spiking freely is legitimate — but before the result is kept, reconcile via `flag_drift` so the model catches up; drift exists precisely so the code can lead when it must ([[drift-first]]).

One obligation is NEVER waived, because it is cheap only in the moment: if you changed the behaviour of an anchored symbol, confirm or reword its claims BEFORE you finish, while the diff is still in your context — `locate {file, symbol}` returns just those claims, a few lines to check. Deferred, the same reconciliation costs a later session thousands of tokens to reconstruct."#,
    ),
    (
        29,
        "drift-first",
        "Drift — why you plan first, and how drift is worked",
        "drift, changed, reconcile, get_drift, scope, sync",
        r#"Drift is a code change the PLAN does not account for. That is why you plan first: code you change in service of a pending plan item is expected churn and stays silent, but changing already-mapped code with no plan item to explain it is flagged the moment you make it — the signal to either revert a mistake or put the change in the plan. `get_drift` reports the scopes whose code changed since the last reconcile — cheap and deterministic (file mtimes + git diff), and a changed file is NOT a verdict that the model drifted, only "re-check this scope". The loop: for each scope, `read_model {node}` to load its claims, compare them against what the changed code now does, then `flag_drift` to record undescribed behaviour and stale claims ([[drift-directions]]). When you have examined every scope, `reconcile_drift` advances the anchor so the same changes don't resurface — it asserts you reviewed everything that changed, so anything you skipped will not come back. A model with no reconcile anchor yet is seeded as in-sync as of now and reports clean."#,
    ),
    (
        30,
        "directives-binding",
        "Directives are the user's binding HOW-constraints — read them, never write them unasked",
        "directives, directive, constraint, must, never, inherited, set_directives",
        r#"Directives are user-authored, read-only HOW-constraints ("must"/"never" rules). They attach to a responsibility OR to a node, and node-level directives CARRY DOWN: a node is bound by its own plus every ancestor's. `read_model` returns the inherited set in `inheritedDirectives`; `orient` and `locate` return the binding set for a location. Honor all of them when implementing. `set_directives` is the ONE write path and every other tool leaves directives untouched: call it ONLY when the user has explicitly asked, in this conversation, for directives to be written, edited, or deleted (e.g. a bulk reword they dictated) — never on your own initiative, and never to relax a constraint you find inconvenient while implementing. Each item names a `node_id` (binding that node's whole subtree) OR a `responsibility_id`, plus `directives` as the FULL replacement array (empty clears); it writes the plan layer so the change surfaces in the plan diff for the user to see."#,
    ),
    (
        31,
        "user-owns-intent",
        "The user owns intent; you are the editor",
        "intent, user, scope, spec, editor, ownership",
        r#"The model is the user's spec; you are the editor. Translating the change the user asked for into the model deltas it implies — the nodes, responsibilities, and links that express it — is your job; do it without asking. Inventing scope BEYOND the request is not: don't add elements the code merely suggests, and if implementing reveals a higher-level boundary is wrong, surface the question rather than silently restructuring. The modeling rules are AUTHORITATIVE: before any modeling judgment — what earns a symbol, how to pitch a responsibility's altitude, when a group is right, how links propagate — fetch the rule and follow it; never infer the conventions from existing nodes."#,
    ),
    (
        32,
        "codebase-as-evidence",
        "The codebase is evidence, not the source of truth",
        "codebase, evidence, transcribe, file-tree, elicit",
        r#"Elicit responsibilities the system already holds; don't transcribe the file tree into nodes. A good responsibility survives a rewrite in another language ("authenticate requests"); a bad one ("uses jsonwebtoken@9") will not ([[statement-business]]). When a description or responsibility names another node, declare the structural link the mention implies — the prose mention and the structural link are distinct; declare both ([[mentions-imply-links]])."#,
    ),
    (
        33,
        "model-layers",
        "Two layers on disk: the committed model and the planned draft",
        "layers, committed, planned, plan, storage, diff, pending",
        r#"The committed `model` is the source of truth — what the code is believed to satisfy. The `planned` draft is what you and the canvas edit. Their difference is the PLAN — the model→code work queue (`get_pending`): each entry names an element and what to do — `added` (implement new code), `reworded` (re-implement to the new spec), `moved`, `repointed`, `deleted` (remove the code). Authoring tools write the PLAN; the committed model changes only when work is implemented and folds in (`mark_implemented`), or when you extract from code that already exists (the generation primitives, `descope`). Reads return the PLAN layer by default, so what you read back reflects what you just authored; pass `layer: "committed"` only to inspect what the code currently satisfies."#,
    ),
    (
        34,
        "fold-evidence-gate",
        "The fold is gated on evidence — a testable claim folds only with a passing verdict",
        "fold, gate, evidence, verdict, force, unverified, mark_implemented, untested",
        r#"`mark_implemented` is THE build checkpoint, and it is one atomic statement with three parts: the fold ("I built this"), `anchors` ("here is where it lives"), and `tests` ("here is the test I attached to it") — pass all three in the SAME call rather than folding now and anchoring/attaching later. For a claim in a When/While/If form the test is EXPECTED, not opportunistic — and on a symbol host it is MANDATORY ([[test-attachment]]). A testable claim on a code-backed host folds only with a test attached AND a current passing verdict (report ingested after the last edit to the implementation and the test); otherwise that claim STAYS IN THE PLAN and the response names the missing fact (no test / no verdict / stale / failing) and the test files to run — the order is write test → attach (`tests`, or `update_source_map test_entries`) → run with a JUnit reporter → `ingest_test_report` → fold ([[test-verdicts]]). Leaving a claim pending is an honest exit, not a loop to fight; the rest of the fold proceeds. `force: true` folds anyway and records an `unverified` history event (never the default). Ubiquitous claims stay a judgment call and are not gated; never attach a test that doesn't genuinely exercise its claim just to clear the counter. Folding overwrites the committed claim with the clean planned copy, clearing the `stale` drift flag on anything it folds. Vagrant (code-discovered) claims and properties are never folded: they stay in the plan awaiting the user's adopt/reject verdict ([[vagrant-stale]])."#,
    ),
    (
        35,
        "fold-after-sign-off",
        "After sign-off, a reword or addition is an amendment — it waits for the developer",
        "sign-off, amendment, addition, vagrant, reword, fold",
        r#"Claims you reworded or added after the developer signed off their change land as vagrant (origin `amendment` or `addition`) for the developer's verdict; they do not fold. If implementing shows a planned claim is wrong, reword it and fold the rest — the reword waits. A claim you dropped after sign-off is restored to the plan for the same verdict. Cosmetic edits (whitespace, markup) are not amendments; a change of statement, host, or directives is ([[sign-off]])."#,
    ),
    (
        36,
        "fold-in-layers",
        "Fold what you built, not the whole node — skeleton first, claims as they land",
        "fold, partial, layers, responsibilityIds, commit_ancestors, skeleton, links, groups",
        r#"You need not finish a whole node before committing: when you build in layers ([[build-in-layers]]), fold only the responsibilities you actually built (`mark_implemented` accepts `responsibilityIds`, and `propertyLabels` for data fields) and leave the rest in the plan. With neither, a node fold takes every planned responsibility and property on the node. Committing a structural node asserts only that its boundary exists, never that its unbuilt descendants do — so commit the skeleton you built and let the pending work roll up; a node whose subtree mixes built and unbuilt work shows an intermediate completeness ([[completeness-layered]]), the honest state for a layered build, never a reason to withhold the skeleton. In a DESIGN-FIRST model (never committed), folding a built leaf is refused while its ancestors are plan-only — pass `commit_ancestors: true` to fold the ancestor chain structure-only first. A whole-node fold also pulls in the plan links touching the node once BOTH endpoints are committed, and any group the node completes; standalone link/group changes — and EVERY link/group DELETION, which never rides a node fold — fold by their own ids (`link_ids` / `group_ids`). A node you DELETED in the plan folds by its node id once the code is gone."#,
    ),
    (
        37,
        "fold-post-flight",
        "Read the fold's post-flight; a separate validate_model run is for structural sessions",
        "fold, post-flight, validate, warnings, pending, unanchored",
        r#"Every node fold's response ends with a scoped POST-FLIGHT: what's still pending on that node, which of its committed claims lack anchors (an unanchored claim reads as scaffolding and carries no drift tripwire), and any validation warnings this fold introduced — act on those lines. A separate `validate_model` run is for structural sessions that touched many nodes, not for every fold; it runs over your WORKING model (the plan with committed's anchors overlaid) and reports parent-kind mismatches, unknown link endpoints, mixed-level group members, empty symbols, source-map entries on unknown ids, and line ranges that cover their whole symbol. It never judges wording."#,
    ),
    (
        38,
        "health-reading",
        "Reading get_health — the test counts lead, everything else supports",
        "health, tested, testable, untested, anchor, changed, broken, coverage, silent, link-audit",
        r#"`get_health` is deterministic — no semantic judgment. THE HEADLINE NUMBERS ARE THE TEST COUNTS: `tested` (claims with a test ATTACHED), `testable` (claims in a When/While/If form on code-backed hosts, classified from the leading keyword), and `untested` (testable claims with NO test attached — the work queue; drive it to zero on the scopes you build). `tested` is a separate dimension from anchoring, not gated on leafness (a structural claim carrying an integration test counts); anchor observations keyed `test:{id}` are that claim's attached test changing/breaking, not its implementation. Per node: own + subtree rollups of responsibility/property counts, vagrant/stale flags, and anchor coverage (anchorable = any committed claim on LEAF nodes; claims on structural nodes discharge through their subtree and are never "unmapped"). Anchor state comes from the git-free fingerprint check — `changed` (the anchored span differs from what the model last saw), `broken` (the symbol is gone), `fileMissing` — with moved-but-unchanged symbols silently re-anchored; the whole-model summary aggregates anchors per container scope (`anchorSummary.byScope`), the flat per-anchor list appears only on the node-scoped call. The declared-link audit compares links against the extracted import graph (edge_count 0 = asserted-only; `unmodeled` = sibling pairs the code connects but no link declares); `coverage.linkAudit` says which languages resolve FULLY vs by name heuristic — a declared link between name-heuristic files can read asserted-only even when real. `silentAnchors` are sourceMap anchors holding no fingerprint tripwire — drift can never fire for them, so their green is silence, not health. `broadBoundaries` flags boundary globs with no directory prefix (e.g. `**/*`), which silently own every otherwise-unowned file. `totals.stale` counts claims semantically FLAGGED stale by a drift review (`flag_drift`) — it is NOT the anchor tripwire count, so 0 stale next to changed/broken anchors means those anchors AWAIT review. `disconnected` lists architecture nodes no relationship link names as source or target — they read as edgeless on every diagram; wire each into the relationship it actually performs, or confirm it belongs (symbols are exempt). `edgeGraph` says whether the link audit had a dependency cache to work from; absent means run a model build first. Use the report to decide WHERE work is needed before reading full subtrees; `completeness` is explained in [[completeness-layered]]."#,
    ),
    (
        39,
        "completeness-layered",
        "Completeness is anchored primitives over authored ones — honest for a layered build",
        "completeness, pct, percent, primitive, greenfield, scaffold",
        r#"Per node, `completeness` is how much of the node's AUTHORED subtree (committed + planned) reads through to real code, so it is defined from greenfield onward. `pct` (0–100) is anchored primitives over authored ones, where a primitive is a node's boundary box (counted only when its glob owns a real file), a leaf responsibility, or a data shape (counted when its anchor resolves and is not broken/missing); a scaffolded container reads low but non-zero, greenfield reads 0. `pct` is ABSENT ("—", unmeasured) when the subtree has no leaf primitives (a bare box), so an undecomposed shell never reads 100%. Only anchor what you have implemented — that discipline is what makes the figure trustworthy ([[anchor-completeness]])."#,
    ),
    (
        40,
        "drift-directions",
        "Every drift finding has a direction: take-code (undescribed) or take-model (stale)",
        "drift, flag_drift, undescribed, stale, vagrant, proposedStatement, diverged",
        r#"`flag_drift` records SEMANTIC drift for a node after comparing its code against its responsibilities. `undescribed` is the *take-code* direction: behaviours the code has that NO responsibility describes — each is proposed into the PLAN as a vagrant adoption (a code-discovered `added` claim), which the user adopts (commit — the code already exists) or rejects (mark the code for deletion); do NOT report code that changed but still satisfies an existing responsibility. `stale` is the *take-model* direction: existing responsibilities the model still asserts but whose code regressed — flagged so the user can give a verdict — re-implement (the model is right, the code is rebuilt) or drop (the behaviour was removed on purpose). When the behaviour did NOT vanish but DIVERGED — the code still does a related thing, just differently than the claim says — also set `proposedStatement` to the corrected wording that matches what the code now does; the user can accept it (folding the new wording with no rebuild) instead of choosing re-implement/drop. Omit `proposedStatement` when the behaviour is truly gone. Call with empty arrays (or don't call) when the code and the model still agree. Where a finding lands is [[drift-homing]]; whole nodes are [[drift-stale-nodes]]; data fields are [[drift-properties]]."#,
    ),
    (
        41,
        "drift-homing",
        "Home each undescribed finding at its true altitude — mint the missing rungs",
        "drift, homing, nodeId, nodeKey, newNodes, mint, altitude",
        r#"Each undescribed finding is HOMED on a node: it routes automatically to the finest node that already owns its `symbol`/file (falling back to the reviewed container), or set `nodeId` to force an existing node. When the model has NO node for the code, MINT the missing rungs in `newNodes` (a `key`, `kind`, `name`, and a parent via `parentId` on an existing node or `parentKey` on a shallower mint — list ancestors first) and point the finding at the leaf with `nodeKey`, so it lands at its true altitude instead of bubbling up to the reviewed container. Minted nodes are vagrant in the plan: they fold when a claim hung on them is adopted and drop on reject."#,
    ),
    (
        42,
        "drift-properties",
        "A data field drifts as a property, never as a responsibility",
        "drift, properties, field, undescribedProperties, staleProperties, data",
        r#"Properties have the SAME two directions as behaviour. A newly-declared struct field / interface member that no property describes is DATA, not behaviour — report it under `undescribedProperties` (its `label`, `sourceFile`, enclosing `symbol`, homed like `undescribed`) so it lands as a vagrant property, NEVER as a responsibility ([[symbols]]). A property whose backing field was removed or materially changed goes under `staleProperties` (`nodeId` + `label`, since properties have no id)."#,
    ),
    (
        43,
        "drift-stale-nodes",
        "When a node's backing code is gone entirely, flag the node, not each claim",
        "drift, staleNodes, deleted, file, subtree, node",
        r#"`staleNodes` is the node-level take-model direction: when a deleted file or folder wipes out a whole modeled node — a symbol, a component, an entire container subtree — flag the NODE (by `nodeId`) instead of listing each of its claims; the verdict then applies to the whole subtree. Use `staleNodes` when the node's backing code is gone entirely, `stale` when only one of a still-present node's claims regressed ([[drift-directions]])."#,
    ),
    (
        44,
        "change-ledger",
        "A change is a named partition of the plan carrying the developer's rationale",
        "change, open_change, close_change, refile, rationale, unfiled, resume, workstream",
        r#"A change is a named partition of the plan, and every task beyond a one-line fix opens one before anything else: `open_change {rationale}` (the task in one sentence, as the dev put it) registers it and points this session's plan writes at it, so parallel workstreams stay separable and review/fold can work per task; `open_change {change_id}` resumes an open one from a prior session (listed in `get_pending`'s `openChanges`). Every plan write is tagged to the session's change automatically, and REFUSED while no change is open; `mark_implemented {change}` folds exactly its entries, and the change closes when its last entry folds — the rationale survives in the history log. `close_change {change_id}` closes an EMPTY stranded change as abandoned — refused while it has tagged entries. `refile {ids, to}` MOVES work that is already pending into another change — a node/group id takes that carrier and everything pending under it, a responsibility/link id takes just that element, a change id takes everything filed under it, and "unfiled" takes everything untagged; `to` accepts a change id or "unfiled" and defaults to this session's change. Use it when work landed in the wrong change or one task turns out to be two — never re-write elements just to re-file them. The session's selection is per project and in-memory: a fresh session re-selects."#,
    ),
    (
        45,
        "sign-off",
        "Sign-off snapshots the approved intent; later edits are amendments",
        "sign-off, snapshot, approved, intent, amendment, sign_off",
        r#"`sign_off` (with `change_id`, or alone for the current change) records that the developer approved the plan: it snapshots the change's entries — statement, host, and directives of each — as the approved intent. From then on any claim the agent rewords or adds under the change lands as vagrant (origin `amendment` / `addition`) for the developer's verdict at `mark_implemented` instead of folding, and a dropped signed-off claim is restored for the same verdict ([[fold-after-sign-off]]). The developer's own canvas saves re-stamp the snapshot, so only agent edits count as amendments. `get_pending` and the plan diff mark entries AMENDMENT / ADDITION / DROPPED against the snapshot."#,
    ),
    (
        46,
        "test-verdicts",
        "Scryer never runs tests; it records verdicts and computes the radius to re-run",
        "verdict, junit, ingest_test_report, get_test_radius, stale, failing, fingerprint, radius",
        r#"Scryer never RUNS tests itself, but it tracks their VERDICTS: after a run, `ingest_test_report {path}` reads the runner's JUnit XML and records each attached test's result against its claim — ONE call per report file, never per test — fingerprint-keyed on the claim's implementation and attached tests, so a later edit to either flips the verdict to stale (no watcher, nothing re-runs). The response says what the report settled (recorded, failing) and what it did not — unmatched cases (normal: attachment is curated, the suite is not), ambiguous names, attachments the report never mentioned (normal for a partial run) — plus the remaining radius. Any runner that emits JUnit XML works: vitest/playwright `--reporter=junit`, pytest `--junitxml=`, jest-junit, cargo-nextest, gotestsum, surefire. `get_test_radius` answers "what needs running": exactly the test files whose claims hold missing or stale verdicts, never the whole suite; an empty radius means every attached claim holds a current verdict, and claims with NO attached test never appear — that gap is health's `untested`. The `untested` count in every status line is your standing work signal; `tests: N failing/stale` joins it only when something needs attention."#,
    ),
    (
        47,
        "source-map",
        "The source map: anchors, attached tests, schema declarations, boundaries",
        "source-map, sourcemap, anchor, entries, test_entries, schemas, boundaries, line, range, glob",
        r#"`update_source_map` writes the code-side mapping (agent-produced, regenerable). `entries` set source locations keyed by responsibility id — the conformance numerator (where reality discharges a responsibility). Each location is the SPECIFIC line range that does the work: `pattern` = file, `line`/`endLine` = the range, `symbol` = the enclosing definition (anchor + context). A line range must be a PROPER subset of its symbol — when one responsibility is the whole definition's work, omit `line`/`endLine` (a symbol-only anchor means the whole definition); ranges that cover the whole symbol are normalized to symbol-only and reported back. `test_entries` ATTACH TESTS to claims — keyed by responsibility id like `entries`, pointing at the test that exercises the claim (`pattern` = test file, `symbol` = the test function or its `it("…")` string; symbol-only means the whole test) — a separate dimension from where a claim is implemented, and the tool to attach a test AFTER a fold (the fix for an `untested` callout). `schemas` set the declaration location of a schema-kind node (properties, not responsibilities) keyed by node id: `pattern` = file, `symbol` = the type name. `boundaries` set directory globs keyed by node id — the coverage denominator (the code region a node owns); use for containers/components, keeping a child's boundary within its parent's. An empty `locations`/`sources` array clears an entry. Anchoring a PLAN-ADDED claim before it is committed is premature — the build checkpoint is the fold ([[anchor-completeness]])."#,
    ),
    (
        48,
        "generation-fill",
        "Generating a model from code: seed the skeleton, then fill each container atomically",
        "generation, generate, fill_container, replace_model, replace_subtree, replace_groups, read_codebase, extract",
        r#"If no model exists yet, build one first: `read_codebase` to see the codebase (deployable units, data stores, external integrations, frameworks), then build top-down. The generation primitives write BOTH layers — the subtree describes code that already exists, so it lands as built, never as a pending queue: `replace_model` seeds the system + container skeleton (JSON with `version: "0.3"`, `nodes`, `links`, optional `groups`/`sourceMap`; warnings are returned but the write commits regardless), `replace_subtree` replaces one node's whole subtree, `replace_groups` creates groups in bulk. `fill_container` fills the complete component + symbol model for ONE existing container in a single write — you never assemble ids by hand: components and nested symbols use unique request-local `key` values, group `memberKeys` are local component keys. You do NOT author code-level links: the server wires component→component and symbol→symbol links from the deterministic dependency graph; the optional `links` field is only for cross-boundary relationships (to an external/other-container node id) the graph can't infer, and any link it can't place legally is dropped and reported, never fatal. The server validates the proposal, mints ids, resolves references, derives links, and performs one write; structural problems (missing symbols, duplicate keys) reject the whole proposal with a specific reason — fix exactly that and retry. Filling records structure and anchors only — it attaches no tests, so testable claims land as `untested`: immediately after a fill, attach the tests the codebase ALREADY has via `update_source_map test_entries`; claims with no existing test stay honestly untested until one is written ([[test-attachment]]). For interactive editing use the typed add_*/update_*/move_* tools instead."#,
    ),
    (
        49,
        "probe-loop",
        "Probing a claim: would its test actually fail if the code stopped honouring it?",
        "probe, open_probe, close_probe, falsification, mutation, worktree, survivor, subagent",
        r#"A green verdict says the test passes; it does not say the test would notice a defect, and a test that asserts nothing passes forever. `open_probe` answers that. DELEGATE IT TO A SUBAGENT on a cheap model — the mutate/run/revert loop is repetitive, produces a lot of test output, and none of it belongs in the context of the session that asked. Nothing happens in the developer's working tree: scryer syncs an isolated git worktree (their uncommitted work included) and returns ITS path, so every edit and every test run happens THERE. The call returns the claim's statement, the worktree, the exact file and line span to break, and the attached test files — then make ONE deliberate breaking edit inside that span, run ONLY those test files, and expect RED. Green means the break survived: the test does not hold the claim, and that is the finding. Aim each break at what the claim actually SAYS (a When/If claim names a trigger and a response — attack those), not at whatever is easiest: deleting a function body proves only that something notices. Up to three distinct breaks, stopping early on the first survivor, then `close_probe {probes, survivors}` — always, including when a probe went wrong: it resets the worktree and records the round. No survivors means the claim reads as probed, NOT proven — you sampled, you did not exhaust. Survivors are the real finding: strengthen the test, re-run for a fresh verdict, probe again. The result is fingerprint-keyed like a verdict. Refused when the claim has no attached test, when its verdict is missing, stale, or not passing, or when the project is not a git repository."#,
    ),
    (
        50,
        "orient-phases",
        "What orient returns, and what its phase verdict tells you to do",
        "orient, phase, plan-execution, reconcile, free, matches, scope",
        r#"`orient {task, files}` returns, scoped to what you're about to do: per file the governing node chain, anchored claims (each flagged `untested` when it is testable with NO test attached — the gap you are expected to close as you work here), and BINDING directives (own + inherited, same as `locate`); per task the best-matching model nodes with their responsibilities and an `untestedClaims` count; the pending plan entries touching that scope (the work queue you may be executing); the drift scopes inside it; the matching rule slugs; a `phase` verdict; and the whole-loop `state` line. The phases: `plan-execution` — pending intent exists in this scope: implement it, tests included, then fold; `reconcile` — code changed outside the plan: compare against the claims, `flag_drift` findings, `reconcile_drift` when done; both — get_drift the scope before building on it; `free` — model and code agree: plan model deltas first if your change alters what the model claims ([[proportionality]]), and claims marked `untested` are standing work. `locate {file, symbol?}` is the single-file form: the claims anchored there (a TEST file returns the claims it is attached to, marked `viaTest`), the owning node chain finest-first, the boundary owner, binding directives, pending entries touching those elements, and `scopeHealth`. Both read the working view, so claims you just authored are visible."#,
    ),
    (
        51,
        "descope-vs-delete",
        "descope removes from the model; delete_nodes stages removal of the code",
        "descope, delete, delete_nodes, remove, boilerplate, entry-point",
        r#"`delete_nodes` is a forward modeling intent: the CODE the nodes model should go away. Descendants, connected links, and source-map entries go with them, and the deletion shows as pending until you remove the code and fold it with `mark_implemented`. `descope` is the model-only correction: the code is fine and stays untouched, it just shouldn't be modeled (an entry-point `main`, a trivial wrapper, generated boilerplate). Each target's own responsibilities relocate up to its parent component, keeping their anchors, so the parent still covers that code and no darkness appears; the node and its descendants are then removed from BOTH layers at once, so nothing enters the pending queue. Reach for `descope` when the model over-claims relative to code reality, `delete_nodes` when the code itself should go."#,
    ),
];

/// Filler words that never count as hits of a lookup.
pub const STOPWORDS: [&'static str; 50] = [
    "the", "a", "an", "and", "or", "for", "of", "to", "in",
    "on", "at", "with", "is", "are", "be", "it", "its", "this",
    "that", "these", "those", "how", "what", "when", "where", "why", "do",
    "does", "did", "can", "should", "must", "my", "our", "your", "their",
    "all", "any", "per", "as", "by", "we", "you", "not", "no",
    "up", "out", "into", "from", "about",
];

/// One rule.
#[derive(Debug, PartialEq)]
pub struct Rule {
    pub id: u8,
    /// What texts and other rules cite.
    pub slug: &'static str,
    pub title: &'static str,
    /// The words it is looked up by.
    pub tags: Vec<String>,
    pub body: &'static str,
}

/// The model of a [`Rule`].
#[verifier::ext_equal]
pub struct RuleView {
    pub id: u8,
    pub slug: Seq<char>,
    pub title: Seq<char>,
    pub tags: Seq<Seq<char>>,
    pub body: Seq<char>,
}

impl DeepView for Rule {
    type V = RuleView;

    open spec fn deep_view(&self) -> RuleView {
        RuleView {
            id: self.id,
            slug: self.slug@,
            title: self.title@,
            tags: self.tags.deep_view(),
            body: self.body@,
        }
    }
}

impl Modelled for Rule {
    fn dup(&self) -> (r: Self) {
        Rule {
            id: self.id,
            slug: self.slug,
            title: self.title,
            tags: self.tags.dup(),
            body: self.body,
        }
    }

    fn same(&self, other: &Self) -> (r: bool) {
        self.id == other.id && same_text(self.slug, other.slug) && same_text(
            self.title,
            other.title,
        ) && self.tags.same(&other.tags) && same_text(self.body, other.body)
    }
}

impl Clone for Rule {
    fn clone(&self) -> (r: Self)
        ensures
            r.deep_view() == self.deep_view(),
    {
        self.dup()
    }
}

// ---- searching a text -------------------------------------------------------------------

/// The first place at or behind `p` where `s` reads `n`.
pub open spec fn found_from(s: Seq<char>, n: Seq<char>, p: int) -> Option<int>
    decreases s.len() - p,
{
    if p >= s.len() {
        None
    } else if reads_at(s, p, n) {
        Some(p)
    } else {
        found_from(s, n, p + 1)
    }
}

/// Does `s` read `n` anywhere?
pub open spec fn has_text(s: Seq<char>, n: Seq<char>) -> bool {
    found_from(s, n, 0) is Some
}

fn find_text(v: &Vec<char>, n: &Vec<char>, from: usize) -> (r: Option<usize>)
    requires
        from <= v@.len(),
    ensures
        match r {
            Some(p) => found_from(v@, n@, from as int) == Some(p as int) && from <= p < v@.len()
                && reads_at(v@, p as int, n@),
            None => found_from(v@, n@, from as int) is None,
        },
{
    let mut p: usize = from;
    while p < v.len()
        invariant
            from <= p <= v@.len(),
            found_from(v@, n@, from as int) == found_from(v@, n@, p as int),
        decreases v@.len() - p,
    {
        if reads(v, p, n) {
            return Some(p);
        }
        p += 1;
    }
    None
}

// ---- pieces -----------------------------------------------------------------------------

/// The pieces of a text so far, and the one that is being read. A character that is not
/// kept ends a piece.
pub open spec fn pieces_state(s: Seq<char>, keep: Seq<bool>) -> (Seq<Seq<char>>, Seq<char>)
    decreases s.len(),
{
    if s.len() == 0 {
        (Seq::empty(), Seq::empty())
    } else {
        let (out, cur) = pieces_state(s.drop_last(), keep);
        if keep[s.len() - 1] {
            (out, cur.push(s.last()))
        } else {
            (out.push(cur), Seq::empty())
        }
    }
}

/// The pieces of a text between the characters that are not kept, empty ones too.
pub open spec fn pieces_of(s: Seq<char>, keep: Seq<bool>) -> Seq<Seq<char>> {
    let (out, cur) = pieces_state(s, keep);
    out.push(cur)
}

/// The pieces of a text between the characters that are not kept, empty ones too.
pub fn pieces(v: &Vec<char>, keep: &Vec<bool>) -> (r: Vec<String>)
    requires
        keep@.len() == v@.len(),
    ensures
        r.deep_view() == pieces_of(v@, keep@),
{
    let mut out: Vec<String> = fresh();
    let mut cur = String::new();
    let mut i: usize = 0;
    assert(v@.take(0) =~= Seq::<char>::empty());
    assert(cur@ =~= Seq::<char>::empty());
    while i < v.len()
        invariant
            i <= v@.len(),
            keep@.len() == v@.len(),
            (out.deep_view(), cur@) == pieces_state(v@.take(i as int), keep@),
        decreases v@.len() - i,
    {
        assert(v@.take(i + 1).drop_last() =~= v@.take(i as int));
        assert(v@.take(i + 1).last() == v@[i as int]);
        if keep[i] {
            cur.push(v[i]);
        } else {
            put(&mut out, cur);
            cur = String::new();
            assert(cur@ =~= Seq::<char>::empty());
        }
        i += 1;
    }
    assert(v@.take(v@.len() as int) =~= v@);
    put(&mut out, cur);
    out
}

/// Which characters are part of a word of a topic: letters, digits and hyphens.
pub open spec fn topical(s: Seq<char>) -> Seq<bool> {
    Seq::new(s.len(), |i: int| is_alnum(s[i]) || s[i] == '-')
}

/// Which characters are not `c`.
pub open spec fn all_but(s: Seq<char>, c: char) -> Seq<bool> {
    Seq::new(s.len(), |i: int| s[i] != c)
}

fn topical_of(v: &Vec<char>) -> (r: Vec<bool>)
    ensures
        r@ == topical(v@),
{
    let mut out: Vec<bool> = Vec::new();
    let mut i: usize = 0;
    while i < v.len()
        invariant
            i <= v@.len(),
            out@ == topical(v@).take(i as int),
        decreases v@.len() - i,
    {
        out.push(v[i] == '-' || alphanumeric(v[i]));
        assert(topical(v@).take(i + 1) =~= topical(v@).take(i as int).push(
            topical(v@)[i as int],
        ));
        i += 1;
    }
    assert(topical(v@).take(v@.len() as int) =~= topical(v@));
    out
}

fn split_on(s: &str, c: char) -> (r: Vec<String>)
    ensures
        r.deep_view() == pieces_of(s@, all_but(s@, c)),
{
    let v = chars_of(s);
    let mut keep: Vec<bool> = Vec::new();
    let mut i: usize = 0;
    while i < v.len()
        invariant
            i <= v@.len(),
            keep@ == all_but(v@, c).take(i as int),
        decreases v@.len() - i,
    {
        keep.push(v[i] != c);
        assert(all_but(v@, c).take(i + 1) =~= all_but(v@, c).take(i as int).push(
            all_but(v@, c)[i as int],
        ));
        i += 1;
    }
    assert(all_but(v@, c).take(v@.len() as int) =~= all_but(v@, c));
    pieces(&v, &keep)
}

// ---- the rules --------------------------------------------------------------------------

/// The texts of a list, each without the white space around it.
pub open spec fn all_trimmed(s: Seq<Seq<char>>) -> Seq<Seq<char>> {
    Seq::new(s.len(), |i: int| trimmed(s[i]))
}

/// The tags in a row.
pub open spec fn tags_in(s: Seq<char>) -> Seq<Seq<char>> {
    all_trimmed(pieces_of(s, all_but(s, ',')))
}

/// The `i`-th rule.
pub open spec fn rule_view(i: int) -> RuleView {
    let row = RULES@[i];
    RuleView { id: row.0, slug: row.1@, title: row.2@, tags: tags_in(row.3@), body: row.4@ }
}

/// The rules, in order.
pub open spec fn rule_list() -> Seq<RuleView> {
    Seq::new(RULES@.len(), |i: int| rule_view(i))
}

fn split_tags(s: &str) -> (r: Vec<String>)
    ensures
        r.deep_view() == tags_in(s@),
{
    let ps = split_on(s, ',');
    let ghost pv = ps.deep_view();
    let ghost want = all_trimmed(pv);
    let mut out: Vec<String> = fresh();
    let mut i: usize = 0;
    assert(want.take(0) =~= Seq::<Seq<char>>::empty());
    while i < ps.len()
        invariant
            i <= ps@.len(),
            pv == ps.deep_view(),
            want == all_trimmed(pv),
            out.deep_view() == want.take(i as int),
        decreases ps@.len() - i,
    {
        let p = at(&ps, i);
        put(&mut out, trim(p.as_str()).to_owned());
        assert(want.take(i + 1) =~= want.take(i as int).push(want[i as int]));
        i += 1;
    }
    assert(want.take(want.len() as int) =~= want);
    out
}

fn rule_at(i: usize) -> (r: Rule)
    requires
        i < RULES@.len(),
    ensures
        r.deep_view() == rule_view(i as int),
{
    let row = RULES[i];
    Rule { id: row.0, slug: row.1, title: row.2, tags: split_tags(row.3), body: row.4 }
}

/// Every rule, in order.
pub fn rules() -> (r: Vec<Rule>)
    ensures
        r.deep_view() == rule_list(),
{
    let mut out: Vec<Rule> = fresh();
    let mut i: usize = 0;
    assert(rule_list().take(0) =~= Seq::<RuleView>::empty());
    while i < RULES.len()
        invariant
            i <= RULES@.len(),
            out.deep_view() == rule_list().take(i as int),
        decreases RULES@.len() - i,
    {
        put(&mut out, rule_at(i));
        assert(rule_list().take(i + 1) =~= rule_list().take(i as int).push(
            rule_list()[i as int],
        ));
        i += 1;
    }
    assert(rule_list().take(RULES@.len() as int) =~= rule_list());
    out
}

// ---- rendering --------------------------------------------------------------------------

/// The rules in full, a line to each.
pub open spec fn full_text(rs: Seq<RuleView>) -> Seq<char>
    decreases rs.len(),
{
    if rs.len() == 0 {
        Seq::empty()
    } else {
        let r = rs.last();
        full_text(rs.drop_last()) + r.slug + " — "@ + r.title + ". "@ + r.body + "\n"@
    }
}

/// The index of the rules: slug, title and tags, a line to each.
pub open spec fn index_text(rs: Seq<RuleView>) -> Seq<char>
    decreases rs.len(),
{
    if rs.len() == 0 {
        Seq::empty()
    } else {
        let r = rs.last();
        index_text(rs.drop_last()) + r.slug + " — "@ + r.title + " ["@ + joined(r.tags, ", "@)
            + "]\n"@
    }
}

/// The rules in full, set apart by blank lines.
pub open spec fn pulled_text(rs: Seq<RuleView>) -> Seq<char>
    decreases rs.len(),
{
    if rs.len() == 0 {
        Seq::empty()
    } else {
        let r = rs.last();
        pulled_text(rs.drop_last()) + r.slug + " — "@ + r.title + "\n"@ + r.body + "\n\n"@
    }
}

/// The rules in full, one after the other.
pub fn rules_full() -> (r: String)
    ensures
        r@ == full_text(rule_list()),
{
    let all = rules();
    let ghost v = all.deep_view();
    let mut s = String::new();
    let mut i: usize = 0;
    assert(v.take(0) =~= Seq::<RuleView>::empty());
    assert(s@ =~= Seq::<char>::empty());
    while i < all.len()
        invariant
            i <= all@.len(),
            v == all.deep_view(),
            s@ == full_text(v.take(i as int)),
        decreases all@.len() - i,
    {
        let r = at(&all, i);
        assert(v.take(i + 1).drop_last() =~= v.take(i as int));
        assert(v.take(i + 1).last() == r.deep_view());
        s.append(r.slug);
        s.append(" — ");
        s.append(r.title);
        s.append(". ");
        s.append(r.body);
        s.append("\n");
        i += 1;
    }
    assert(v.take(v.len() as int) =~= v);
    s
}

/// A compact index: slug, title and tags of each rule.
pub fn rules_index() -> (r: String)
    ensures
        r@ == index_text(rule_list()),
{
    let all = rules();
    let ghost v = all.deep_view();
    let mut s = String::new();
    let mut i: usize = 0;
    assert(v.take(0) =~= Seq::<RuleView>::empty());
    assert(s@ =~= Seq::<char>::empty());
    while i < all.len()
        invariant
            i <= all@.len(),
            v == all.deep_view(),
            s@ == index_text(v.take(i as int)),
        decreases all@.len() - i,
    {
        let r = at(&all, i);
        assert(v.take(i + 1).drop_last() =~= v.take(i as int));
        assert(v.take(i + 1).last() == r.deep_view());
        s.append(r.slug);
        s.append(" — ");
        s.append(r.title);
        s.append(" [");
        s.append(join(&r.tags, ", ").as_str());
        s.append("]\n");
        i += 1;
    }
    assert(v.take(v.len() as int) =~= v);
    s
}

/// A set of rules in full, set apart by blank lines, with no white space at the end.
pub fn render(rules: &Vec<Rule>) -> (r: String)
    ensures
        r@ == trimmed_end(pulled_text(rules.deep_view())),
{
    let ghost v = rules.deep_view();
    let mut s = String::new();
    let mut i: usize = 0;
    assert(v.take(0) =~= Seq::<RuleView>::empty());
    assert(s@ =~= Seq::<char>::empty());
    while i < rules.len()
        invariant
            i <= rules@.len(),
            v == rules.deep_view(),
            s@ == pulled_text(v.take(i as int)),
        decreases rules@.len() - i,
    {
        let r = at(rules, i);
        assert(v.take(i + 1).drop_last() =~= v.take(i as int));
        assert(v.take(i + 1).last() == r.deep_view());
        s.append(r.slug);
        s.append(" — ");
        s.append(r.title);
        s.append("\n");
        s.append(r.body);
        s.append("\n\n");
        i += 1;
    }
    assert(v.take(v.len() as int) =~= v);
    let cs = chars_of(s.as_str());
    let end = end_of(&cs, 0, cs.len());
    assert(cs@.subrange(0, cs@.len() as int) =~= cs@);
    text_of(&cs, 0, end)
}

// ---- by slug ----------------------------------------------------------------------------

/// The number that a list of decimal digits stands for.
pub open spec fn digits_value(s: Seq<char>) -> nat
    decreases s.len(),
{
    if s.len() == 0 {
        0
    } else {
        10 * digits_value(s.drop_last()) + (s.last() as u32 - '0' as u32) as nat
    }
}

/// Is every character a decimal digit, and is there one?
pub open spec fn all_digits(s: Seq<char>) -> bool {
    s.len() > 0 && forall|i: int| 0 <= i < s.len() ==> '0' <= #[trigger] s[i] && s[i] <= '9'
}

/// The text without a leading plus sign.
pub open spec fn unsigned(s: Seq<char>) -> Seq<char> {
    if s.len() > 0 && s[0] == '+' {
        s.drop_first()
    } else {
        s
    }
}

/// The number of up to 255 that a text is, if it is one.
pub open spec fn small_number(s: Seq<char>) -> Option<nat> {
    let d = unsigned(s);
    if all_digits(d) && digits_value(d) <= 255 {
        Some(digits_value(d))
    } else {
        None
    }
}

proof fn lemma_value_grows(s: Seq<char>, i: int)
    requires
        0 <= i <= s.len(),
        all_digits(s),
    ensures
        digits_value(s.take(i)) <= digits_value(s),
    decreases s.len(),
{
    if i == s.len() {
        assert(s.take(i) =~= s);
    } else {
        let d = s.drop_last();
        if d.len() > 0 {
            assert forall|k: int| 0 <= k < d.len() implies '0' <= #[trigger] d[k] && d[k]
                <= '9' by {
                assert(d[k] == s[k]);
            }
            lemma_value_grows(d, i);
        }
        assert(s.take(i) =~= d.take(i));
        assert('0' <= s[s.len() - 1]);
    }
}

fn read_number(s: &str) -> (r: Option<u8>)
    ensures
        match r {
            Some(n) => small_number(s@) == Some(n as nat),
            None => small_number(s@) is None,
        },
{
    let v = chars_of(s);
    let from: usize = if v.len() > 0 && v[0] == '+' {
        1
    } else {
        0
    };
    let ghost d = unsigned(v@);
    assert(d =~= v@.skip(from as int));
    if v.len() == from {
        return None;
    }
    let mut n: u32 = 0;
    let mut i: usize = from;
    assert(d.take(0) =~= Seq::<char>::empty());
    while i < v.len()
        invariant
            from <= i <= v@.len(),
            v@ == s@,
            d == v@.skip(from as int),
            d == unsigned(s@),
            d.len() > 0,
            n <= 255,
            n as nat == digits_value(d.take(i - from)),
            forall|k: int| 0 <= k < i - from ==> '0' <= #[trigger] d[k] && d[k] <= '9',
        decreases v@.len() - i,
    {
        let c = v[i];
        assert(d[i - from] == c);
        if !('0' <= c && c <= '9') {
            return None;
        }
        assert(d.take(i - from + 1).drop_last() =~= d.take(i - from));
        let digit: u32 = c as u32 - '0' as u32;
        n = n * 10 + digit;
        if n > 255 {
            proof {
                if all_digits(d) {
                    lemma_value_grows(d, i - from + 1);
                }
            }
            return None;
        }
        i += 1;
    }
    assert(d.take(d.len() as int) =~= d);
    Some(n as u8)
}

/// The first rule with a number.
pub open spec fn by_number(rs: Seq<RuleView>, n: nat) -> Option<RuleView>
    decreases rs.len(),
{
    if rs.len() == 0 {
        None
    } else if rs[0].id as nat == n {
        Some(rs[0])
    } else {
        by_number(rs.drop_first(), n)
    }
}

/// The first rule with a slug.
pub open spec fn by_slug(rs: Seq<RuleView>, slug: Seq<char>) -> Option<RuleView>
    decreases rs.len(),
{
    if rs.len() == 0 {
        None
    } else if rs[0].slug == slug {
        Some(rs[0])
    } else {
        by_slug(rs.drop_first(), slug)
    }
}

/// The rule that a key names: by its number where the key is one, else by its slug.
pub open spec fn rule_named(rs: Seq<RuleView>, key: Seq<char>) -> Option<RuleView> {
    match small_number(trimmed(key)) {
        Some(n) => by_number(rs, n),
        None => by_slug(rs, trimmed(key)),
    }
}

/// One rule by its slug, or by its number.
pub fn get(slug: &str) -> (r: Option<Rule>)
    ensures
        r.deep_view() == rule_named(rule_list(), slug@),
{
    let key = trim(slug);
    let all = rules();
    let ghost v = all.deep_view();
    let number = read_number(key);
    let mut i: usize = 0;
    assert(v.skip(0) =~= v);
    while i < all.len()
        invariant
            i <= all@.len(),
            v == all.deep_view(),
            v == rule_list(),
            key@ == trimmed(slug@),
            match number {
                Some(n) => small_number(key@) == Some(n as nat),
                None => small_number(key@) is None,
            },
            match number {
                Some(n) => by_number(v, n as nat) == by_number(v.skip(i as int), n as nat),
                None => by_slug(v, key@) == by_slug(v.skip(i as int), key@),
            },
        decreases all@.len() - i,
    {
        let r = at(&all, i);
        assert(v.skip(i as int)[0] == r.deep_view());
        assert(v.skip(i as int).drop_first() =~= v.skip(i + 1));
        let hit = match number {
            Some(n) => r.id == n,
            None => same_text(r.slug, key),
        };
        if hit {
            return Some(r.dup());
        }
        i += 1;
    }
    None
}

// ---- citations --------------------------------------------------------------------------

/// What stands between `[[` and the next `]]`, again and again.
pub open spec fn cited(s: Seq<char>) -> Seq<Seq<char>>
    decreases s.len(),
{
    match found_from(s, "[["@, 0) {
        None => Seq::empty(),
        Some(a) => {
            let after = s.skip(a + 2);
            match found_from(after, "]]"@, 0) {
                None => Seq::empty(),
                Some(b) => if 0 <= a < s.len() && 0 <= b && after.skip(b + 2).len() < s.len() {
                    seq![after.take(b)] + cited(after.skip(b + 2))
                } else {
                    Seq::empty()
                },
            }
        },
    }
}

/// Every `[[slug]]` citation in a text, in order of appearance.
pub fn citations(text: &str) -> (r: Vec<&str>)
    ensures
        Seq::new(r@.len(), |i: int| r@[i]@) == cited(text@),
{
    let v = chars_of(text);
    let n: usize = v.len();
    let open = chars_of("[[");
    let close = chars_of("]]");
    let ghost s = text@;
    let mut out: Vec<&str> = Vec::new();
    let mut from: usize = 0;
    proof {
        reveal_strlit("[[");
        reveal_strlit("]]");
        assert(s.skip(0) =~= s);
        assert(Seq::new(out@.len(), |i: int| out@[i]@) + cited(s) =~= cited(s));
    }
    loop
        invariant
            from <= n == v@.len(),
            v@ == s,
            s == text@,
            open@ == "[["@,
            close@ == "]]"@,
            open@.len() == 2,
            close@.len() == 2,
            Seq::new(out@.len(), |i: int| out@[i]@) + cited(s.skip(from as int)) == cited(s),
        decreases n - from,
    {
        let ghost rest = s.skip(from as int);
        let ghost got = Seq::new(out@.len(), |i: int| out@[i]@);
        let a: usize = match find_text(&v, &open, from) {
            None => {
                proof {
                    lemma_found_shift(s, open@, from as int, 0);
                    assert(got =~= cited(s));
                }
                return out;
            },
            Some(a) => a,
        };
        proof {
            lemma_found_shift(s, open@, from as int, 0);
        }
        let b: usize = match find_text(&v, &close, a + 2) {
            None => {
                proof {
                    lemma_found_shift(s, close@, a + 2, 0);
                    assert(rest.skip(a - from + 2) =~= s.skip(a + 2));
                    assert(got =~= cited(s));
                }
                return out;
            },
            Some(b) => b,
        };
        proof {
            lemma_found_shift(s, close@, a + 2, 0);
            let after = s.skip(a + 2);
            assert(rest.skip(a - from + 2) =~= after);
            assert(after.take(b - (a + 2)) =~= s.subrange(a + 2, b as int));
            assert(after.skip(b - (a + 2) + 2) =~= s.skip(b + 2));
        }
        let piece = text.substring_char(a + 2, b);
        out.push(piece);
        proof {
            let more = cited(s.skip(b + 2));
            assert(Seq::new(out@.len(), |i: int| out@[i]@) =~= got.push(piece@));
            assert(got + (seq![piece@] + more) =~= got.push(piece@) + more);
        }
        from = b + 2;
    }
}

/// A search in the rest of a text is a search from further on.
proof fn lemma_found_shift(s: Seq<char>, n: Seq<char>, k: int, p: int)
    requires
        0 <= k <= s.len(),
        0 <= p,
    ensures
        found_from(s.skip(k), n, p) == match found_from(s, n, k + p) {
            Some(q) => Some(q - k),
            None => None,
        },
    decreases s.len() - k - p,
{
    let t = s.skip(k);
    if p < t.len() {
        assert(reads_at(t, p, n) == reads_at(s, k + p, n)) by {
            if p + n.len() <= t.len() {
                assert(t.subrange(p, p + n.len()) =~= s.subrange(k + p, k + p + n.len()));
            }
        }
        if !reads_at(t, p, n) {
            lemma_found_shift(s, n, k, p + 1);
        }
    }
}

// ---- by topic ---------------------------------------------------------------------------

/// The text without the hyphens at its start.
pub open spec fn unhyphened_start(s: Seq<char>) -> Seq<char>
    decreases s.len(),
{
    if s.len() > 0 && s[0] == '-' {
        unhyphened_start(s.drop_first())
    } else {
        s
    }
}

/// The text without the hyphens at its end.
pub open spec fn unhyphened_end(s: Seq<char>) -> Seq<char>
    decreases s.len(),
{
    if s.len() > 0 && s.last() == '-' {
        unhyphened_end(s.drop_last())
    } else {
        s
    }
}

/// The text without the hyphens at its two ends.
pub open spec fn unhyphened(s: Seq<char>) -> Seq<char> {
    unhyphened_end(unhyphened_start(s))
}

fn trim_hyphens(s: &str) -> (r: String)
    ensures
        r@ == unhyphened(s@),
{
    let v = chars_of(s);
    let mut i: usize = 0;
    assert(v@.skip(0) =~= v@);
    while i < v.len() && v[i] == '-'
        invariant
            i <= v@.len(),
            unhyphened_start(v@) == unhyphened_start(v@.skip(i as int)),
        decreases v@.len() - i,
    {
        assert(v@.skip(i as int).drop_first() =~= v@.skip(i + 1));
        i += 1;
    }
    let ghost t = v@.skip(i as int);
    assert(unhyphened_start(v@) == t);
    let mut j: usize = v.len();
    assert(v@.subrange(i as int, j as int) =~= t);
    while j > i && v[j - 1] == '-'
        invariant
            i <= j <= v@.len(),
            unhyphened_end(t) == unhyphened_end(v@.subrange(i as int, j as int)),
        decreases j,
    {
        assert(v@.subrange(i as int, j as int).drop_last() =~= v@.subrange(i as int, j - 1));
        j -= 1;
    }
    text_of(&v, i, j)
}

/// Is the word a filler?
pub open spec fn is_stopword(s: Seq<char>) -> bool {
    exists|i: int| 0 <= i < STOPWORDS@.len() && (#[trigger] STOPWORDS@[i])@ == s
}

fn stopword(s: &str) -> (r: bool)
    ensures
        r == is_stopword(s@),
{
    let mut i: usize = 0;
    while i < STOPWORDS.len()
        invariant
            i <= STOPWORDS@.len(),
            forall|j: int| 0 <= j < i ==> (#[trigger] STOPWORDS@[j])@ != s@,
        decreases STOPWORDS@.len() - i,
    {
        let w = STOPWORDS[i];
        assert(STOPWORDS@[i as int]@ == w@);
        if same_text(w, s) {
            return true;
        }
        i += 1;
    }
    false
}

/// The terms among the pieces of a topic, in lower case: without hyphens at their ends,
/// of three bytes or more, and no fillers.
pub open spec fn terms_among(ps: Seq<Seq<char>>) -> Seq<Seq<char>>
    decreases ps.len(),
{
    if ps.len() == 0 {
        Seq::empty()
    } else {
        let before = terms_among(ps.drop_last());
        let t = lower_text(unhyphened(ps.last()));
        if byte_len(t) >= 3 && !is_stopword(t) {
            before.push(t)
        } else {
            before
        }
    }
}

/// The terms of a topic.
pub open spec fn terms_of(topic: Seq<char>) -> Seq<Seq<char>> {
    terms_among(pieces_of(topic, topical(topic)))
}

fn topic_terms(topic: &str) -> (r: Vec<String>)
    ensures
        r.deep_view() == terms_of(topic@),
{
    let v = chars_of(topic);
    let keep = topical_of(&v);
    let ps = pieces(&v, &keep);
    let ghost pv = ps.deep_view();
    let mut out: Vec<String> = fresh();
    let mut i: usize = 0;
    assert(pv.take(0) =~= Seq::<Seq<char>>::empty());
    while i < ps.len()
        invariant
            i <= ps@.len(),
            pv == ps.deep_view(),
            out.deep_view() == terms_among(pv.take(i as int)),
        decreases ps@.len() - i,
    {
        assert(pv.take(i + 1).drop_last() =~= pv.take(i as int));
        let t = lowercase(trim_hyphens(at(&ps, i).as_str()).as_str());
        if bytes_in(t.as_str()) >= 3 && !stopword(t.as_str()) {
            put(&mut out, t);
        }
        i += 1;
    }
    assert(pv.take(pv.len() as int) =~= pv);
    out
}

/// Does a term hit a word: is it the word, or one of the two the beginning of the other,
/// of four bytes or more?
pub open spec fn word_hit(term: Seq<char>, word: Seq<char>) -> bool {
    ||| term == word
    ||| byte_len(term) >= 4 && term.is_prefix_of(word)
    ||| byte_len(word) >= 4 && word.is_prefix_of(term)
}

fn begins(s: &str, p: &str) -> (r: bool)
    ensures
        r == p@.is_prefix_of(s@),
{
    let v = chars_of(s);
    let q = chars_of(p);
    let r = reads(&v, 0, &q);
    proof {
        if q@.len() <= v@.len() {
            assert(v@.subrange(0, q@.len() as int) =~= v@.take(q@.len() as int));
        }
        if r {
            assert(p@ =~= s@.take(p@.len() as int));
        }
        if p@.is_prefix_of(s@) {
            assert(p@ =~= s@.subrange(0, p@.len() as int));
        }
    }
    r
}

fn hits_word(term: &str, word: &str) -> (r: bool)
    ensures
        r == word_hit(term@, word@),
{
    same_text(term, word) || (bytes_in(term) >= 4 && begins(word, term)) || (bytes_in(word) >= 4
        && begins(term, word))
}

/// What a rule can be found by: the curated words of its title, tags and slug, and its
/// body.
pub struct Surface {
    pub words: Vec<String>,
    pub body: String,
}

/// The model of a [`Surface`].
#[verifier::ext_equal]
pub struct SurfaceView {
    pub words: Seq<Seq<char>>,
    pub body: Seq<char>,
}

impl DeepView for Surface {
    type V = SurfaceView;

    open spec fn deep_view(&self) -> SurfaceView {
        SurfaceView { words: self.words.deep_view(), body: self.body@ }
    }
}

/// The texts that are not empty.
pub open spec fn not_empty(s: Seq<Seq<char>>) -> Seq<Seq<char>>
    decreases s.len(),
{
    if s.len() == 0 {
        Seq::empty()
    } else if s.last().len() == 0 {
        not_empty(s.drop_last())
    } else {
        not_empty(s.drop_last()).push(s.last())
    }
}

/// The words of a title, in lower case.
pub open spec fn title_words(title: Seq<char>) -> Seq<Seq<char>> {
    let low = lower_text(title);
    not_empty(pieces_of(low, topical(low)))
}

/// What a rule can be found by.
pub open spec fn surface_of(r: RuleView) -> SurfaceView {
    SurfaceView {
        words: title_words(r.title) + r.tags + pieces_of(r.slug, all_but(r.slug, '-')),
        body: lower_text(r.body),
    }
}

fn only_filled(v: &Vec<String>) -> (r: Vec<String>)
    ensures
        r.deep_view() == not_empty(v.deep_view()),
{
    let ghost s = v.deep_view();
    let mut out: Vec<String> = fresh();
    let mut i: usize = 0;
    assert(s.take(0) =~= Seq::<Seq<char>>::empty());
    while i < v.len()
        invariant
            i <= v@.len(),
            s == v.deep_view(),
            out.deep_view() == not_empty(s.take(i as int)),
        decreases v@.len() - i,
    {
        let x = at(v, i);
        assert(s.take(i + 1).drop_last() =~= s.take(i as int));
        if x.as_str().unicode_len() > 0 {
            put(&mut out, x.clone());
        }
        i += 1;
    }
    assert(s.take(s.len() as int) =~= s);
    out
}

fn surface(r: &Rule) -> (s: Surface)
    ensures
        s.deep_view() == surface_of(r.deep_view()),
{
    let low = lowercase(r.title);
    let v = chars_of(low.as_str());
    let keep = topical_of(&v);
    let mut words = only_filled(&pieces(&v, &keep));
    let ghost a = words.deep_view();
    let mut tags = r.tags.dup();
    let ghost b = tags.deep_view();
    words.append(&mut tags);
    assert(words.deep_view() =~= a + b);
    let mut parts = split_on(r.slug, '-');
    let ghost c = parts.deep_view();
    words.append(&mut parts);
    assert(words.deep_view() =~= a + b + c);
    Surface { words, body: lowercase(r.body) }
}

/// Does a term hit one of the words?
pub open spec fn hits_some(term: Seq<char>, words: Seq<Seq<char>>) -> bool {
    exists|i: int| 0 <= i < words.len() && word_hit(term, #[trigger] words[i])
}

fn hits_any(term: &str, words: &Vec<String>) -> (r: bool)
    ensures
        r == hits_some(term@, words.deep_view()),
{
    let ghost v = words.deep_view();
    let mut i: usize = 0;
    while i < words.len()
        invariant
            i <= words@.len(),
            v == words.deep_view(),
            forall|j: int| 0 <= j < i ==> !word_hit(term@, #[trigger] v[j]),
        decreases words@.len() - i,
    {
        let w = at(words, i);
        assert(v[i as int] == w@);
        if hits_word(term, w.as_str()) {
            return true;
        }
        i += 1;
    }
    false
}

/// How many of the terms hit a curated word, and how many of the others stand in the body.
pub open spec fn score_of(terms: Seq<Seq<char>>, s: SurfaceView) -> (nat, nat)
    decreases terms.len(),
{
    if terms.len() == 0 {
        (0, 0)
    } else {
        let (c, b) = score_of(terms.drop_last(), s);
        let t = terms.last();
        if hits_some(t, s.words) {
            (c + 1, b)
        } else if has_text(s.body, t) {
            (c, b + 1)
        } else {
            (c, b)
        }
    }
}

fn score(terms: &Vec<String>, s: &Surface) -> (r: (usize, usize))
    ensures
        (r.0 as nat, r.1 as nat) == score_of(terms.deep_view(), s.deep_view()),
{
    let ghost v = terms.deep_view();
    let ghost sv = s.deep_view();
    let body = chars_of(s.body.as_str());
    let mut c: usize = 0;
    let mut b: usize = 0;
    let mut i: usize = 0;
    assert(v.take(0) =~= Seq::<Seq<char>>::empty());
    while i < terms.len()
        invariant
            i <= terms@.len(),
            v == terms.deep_view(),
            sv == s.deep_view(),
            body@ == sv.body,
            c <= i,
            b <= i,
            (c as nat, b as nat) == score_of(v.take(i as int), sv),
        decreases terms@.len() - i,
    {
        let t = at(terms, i);
        assert(v.take(i + 1).drop_last() =~= v.take(i as int));
        assert(v.take(i + 1).last() == t@);
        if hits_any(t.as_str(), &s.words) {
            c += 1;
        } else if find_text(&body, &chars_of(t.as_str()), 0).is_some() {
            b += 1;
        }
        i += 1;
    }
    assert(v.take(v.len() as int) =~= v);
    (c, b)
}

/// The scores of the surfaces, in order.
pub open spec fn scores_of(terms: Seq<Seq<char>>, ss: Seq<SurfaceView>) -> Seq<(nat, nat)> {
    Seq::new(ss.len(), |i: int| score_of(terms, ss[i]))
}

/// Has any of them a curated hit?
pub open spec fn any_curated(scores: Seq<(nat, nat)>) -> bool {
    exists|i: int| 0 <= i < scores.len() && (#[trigger] scores[i]).0 > 0
}

/// Does a score count: a curated hit where there is any, else any hit?
pub open spec fn counts(scores: Seq<(nat, nat)>, i: int) -> bool {
    if any_curated(scores) {
        scores[i].0 > 0
    } else {
        scores[i].1 > 0
    }
}

/// What a score is worth: a curated hit counts twice.
pub open spec fn worth(s: (nat, nat)) -> nat {
    2 * s.0 + s.1
}

/// A ranking with `i` put where it belongs: behind those that are worth as much or more.
pub open spec fn ranked_in(scores: Seq<(nat, nat)>, r: Seq<int>, i: int) -> Seq<int>
    decreases r.len(),
{
    if r.len() > 0 && worth(scores[r.last()]) < worth(scores[i]) {
        ranked_in(scores, r.drop_last(), i).push(r.last())
    } else {
        r.push(i)
    }
}

/// The first `n` of the scores that count, the best first; equals stay in order.
pub open spec fn ranking(scores: Seq<(nat, nat)>, n: int) -> Seq<int>
    decreases n,
{
    if n <= 0 {
        Seq::empty()
    } else if counts(scores, n - 1) {
        ranked_in(scores, ranking(scores, n - 1), n - 1)
    } else {
        ranking(scores, n - 1)
    }
}

proof fn lemma_ranked_at(scores: Seq<(nat, nat)>, r: Seq<int>, i: int, p: int)
    requires
        0 <= p <= r.len(),
        forall|j: int| p <= j < r.len() ==> worth(scores[#[trigger] r[j]]) < worth(scores[i]),
        p > 0 ==> worth(scores[r[p - 1]]) >= worth(scores[i]),
    ensures
        ranked_in(scores, r, i) == r.insert(p, i),
    decreases r.len(),
{
    if p < r.len() {
        let d = r.drop_last();
        assert(worth(scores[r[r.len() - 1]]) < worth(scores[i]));
        assert forall|j: int| p <= j < d.len() implies worth(scores[#[trigger] d[j]])
            < worth(scores[i]) by {
            assert(d[j] == r[j]);
        }
        lemma_ranked_at(scores, d, i, p);
        assert(d.insert(p, i).push(r.last()) =~= r.insert(p, i));
    } else {
        assert(r.insert(p, i) =~= r.push(i));
    }
}

/// The scores, modelled.
pub open spec fn score_views(scores: Seq<(usize, usize)>) -> Seq<(nat, nat)> {
    Seq::new(scores.len(), |i: int| (scores[i].0 as nat, scores[i].1 as nat))
}

fn worth_of(s: &(usize, usize)) -> (r: u128)
    ensures
        r as nat == worth((s.0 as nat, s.1 as nat)),
{
    2 * (s.0 as u128) + s.1 as u128
}

fn some_curated(scores: &Vec<(usize, usize)>) -> (r: bool)
    ensures
        r == any_curated(score_views(scores@)),
{
    let ghost v = score_views(scores@);
    let mut i: usize = 0;
    while i < scores.len()
        invariant
            i <= scores@.len(),
            v == score_views(scores@),
            forall|j: int| 0 <= j < i ==> (#[trigger] v[j]).0 == 0,
        decreases scores@.len() - i,
    {
        assert(v[i as int].0 == scores@[i as int].0);
        if scores[i].0 > 0 {
            return true;
        }
        i += 1;
    }
    false
}

/// The scores that count, the best first: where any has a curated hit, only those that
/// have one. Equals stay in order.
pub fn rank(scores: &Vec<(usize, usize)>) -> (r: Vec<usize>)
    ensures
        Seq::new(r@.len(), |k: int| r@[k] as int) == ranking(
            score_views(scores@),
            scores@.len() as int,
        ),
        forall|k: int| 0 <= k < r@.len() ==> #[trigger] r@[k] < scores@.len(),
{
    let ghost v = score_views(scores@);
    let curated = some_curated(scores);
    let mut out: Vec<usize> = Vec::new();
    let mut i: usize = 0;
    assert(Seq::new(out@.len(), |k: int| out@[k] as int) =~= Seq::<int>::empty());
    while i < scores.len()
        invariant
            i <= scores@.len(),
            v == score_views(scores@),
            curated == any_curated(v),
            Seq::new(out@.len(), |k: int| out@[k] as int) == ranking(v, i as int),
            forall|k: int| 0 <= k < out@.len() ==> #[trigger] out@[k] < i,
        decreases scores@.len() - i,
    {
        let s = scores[i];
        let ghost t = Seq::new(out@.len(), |k: int| out@[k] as int);
        assert(v[i as int] == (s.0 as nat, s.1 as nat));
        let good = if curated {
            s.0 > 0
        } else {
            s.1 > 0
        };
        if good {
            let mut p: usize = out.len();
            while p > 0 && worth_of(&scores[out[p - 1]]) < worth_of(&s)
                invariant
                    p <= out@.len(),
                    i < scores@.len(),
                    v == score_views(scores@),
                    s == scores@[i as int],
                    t == Seq::new(out@.len(), |k: int| out@[k] as int),
                    forall|k: int| 0 <= k < out@.len() ==> #[trigger] out@[k] < i,
                    forall|j: int|
                        p <= j < t.len() ==> worth(v[#[trigger] t[j]]) < worth(v[i as int]),
                decreases p,
            {
                p -= 1;
                assert(t[p as int] == out@[p as int]);
                assert(v[t[p as int]] == (
                    scores@[out@[p as int] as int].0 as nat,
                    scores@[out@[p as int] as int].1 as nat,
                ));
            }
            let ghost o0 = out@;
            proof {
                if p > 0 {
                    assert(t[p - 1] == out@[p - 1]);
                    assert(v[t[p - 1]] == (
                        scores@[out@[p - 1] as int].0 as nat,
                        scores@[out@[p - 1] as int].1 as nat,
                    ));
                }
                lemma_ranked_at(v, t, i as int, p as int);
            }
            out.insert(p, i);
            assert(Seq::new(out@.len(), |k: int| out@[k] as int) =~= t.insert(p as int, i as int));
            assert forall|k: int| 0 <= k < out@.len() implies #[trigger] out@[k] < i + 1 by {
                if k < p {
                    assert(out@[k] == o0[k]);
                } else if k > p {
                    assert(out@[k] == o0[k - 1]);
                }
            }
        }
        i += 1;
    }
    out
}

/// The surfaces of a list of rules.
pub open spec fn surfaces_of(rs: Seq<RuleView>) -> Seq<SurfaceView> {
    Seq::new(rs.len(), |i: int| surface_of(rs[i]))
}

/// The rules that a topic is about, the best first.
pub open spec fn rules_on(rs: Seq<RuleView>, topic: Seq<char>) -> Seq<RuleView> {
    let terms = terms_of(topic);
    let order = ranking(scores_of(terms, surfaces_of(rs)), rs.len() as int);
    if terms.len() == 0 {
        Seq::empty()
    } else {
        Seq::new(order.len(), |i: int| rs[order[i]])
    }
}

/// The rules that a topic is about, the best first; a whole sentence is a topic. It is
/// taken apart into words (a hyphenated one stays whole), fillers and fragments of fewer
/// than three bytes are dropped, and each word is matched against the words of titles,
/// tags and slugs. Hits in the body count only where no rule has a hit there. Equals
/// stay in order.
pub fn lookup(topic: &str) -> (r: Vec<Rule>)
    ensures
        r.deep_view() == rules_on(rule_list(), topic@),
{
    let terms = topic_terms(topic);
    if terms.len() == 0 {
        return fresh();
    }
    let all = rules();
    let ghost rs = all.deep_view();
    let ghost tv = terms.deep_view();
    let ghost want = scores_of(tv, surfaces_of(rs));
    let mut scores: Vec<(usize, usize)> = Vec::new();
    let mut i: usize = 0;
    assert(score_views(scores@) =~= want.take(0));
    while i < all.len()
        invariant
            i <= all@.len(),
            rs == all.deep_view(),
            tv == terms.deep_view(),
            want == scores_of(tv, surfaces_of(rs)),
            score_views(scores@) == want.take(i as int),
        decreases all@.len() - i,
    {
        let s = surface(at(&all, i));
        let x = score(&terms, &s);
        let ghost had = score_views(scores@);
        scores.push(x);
        proof {
            assert(score_views(scores@) =~= had.push((x.0 as nat, x.1 as nat)));
            assert(want.take(i + 1) =~= want.take(i as int).push(want[i as int]));
        }
        i += 1;
    }
    assert(want.take(rs.len() as int) =~= want);
    let order = rank(&scores);
    let ghost ov = ranking(want, rs.len() as int);
    let mut out: Vec<Rule> = fresh();
    i = 0;
    let ghost picked = Seq::new(ov.len(), |k: int| rs[ov[k]]);
    assert(picked.take(0) =~= Seq::<RuleView>::empty());
    proof {
        assert(score_views(scores@).len() == scores@.len());
    }
    while i < order.len()
        invariant
            i <= order@.len(),
            rs == all.deep_view(),
            ov == Seq::new(order@.len(), |k: int| order@[k] as int),
            forall|k: int| 0 <= k < order@.len() ==> #[trigger] order@[k] < rs.len(),
            picked == Seq::new(ov.len(), |k: int| rs[ov[k]]),
            out.deep_view() == picked.take(i as int),
        decreases order@.len() - i,
    {
        assert(ov[i as int] == order@[i as int] as int);
        put(&mut out, at(&all, order[i]).dup());
        assert(picked.take(i + 1) =~= picked.take(i as int).push(picked[i as int]));
        i += 1;
    }
    assert(picked.take(picked.len() as int) =~= picked);
    out
}

// ---- laws -------------------------------------------------------------------------------

/// Is a ranking the best first?
pub open spec fn best_first(scores: Seq<(nat, nat)>, r: Seq<int>) -> bool {
    forall|a: int, b: int|
        0 <= a < b < r.len() ==> worth(scores[#[trigger] r[a]]) >= worth(scores[#[trigger] r[b]])
}

proof fn lemma_ranked_in(scores: Seq<(nat, nat)>, r: Seq<int>, i: int)
    requires
        best_first(scores, r),
    ensures
        best_first(scores, ranked_in(scores, r, i)),
        forall|x: int| #[trigger] ranked_in(scores, r, i).contains(x) <==> r.contains(x) || x == i,
    decreases r.len(),
{
    if r.len() > 0 && worth(scores[r.last()]) < worth(scores[i]) {
        let d = r.drop_last();
        assert forall|a: int, b: int| 0 <= a < b < d.len() implies worth(scores[#[trigger] d[a]])
            >= worth(scores[#[trigger] d[b]]) by {
            assert(d[a] == r[a] && d[b] == r[b]);
        }
        lemma_ranked_in(scores, d, i);
        let p = ranked_in(scores, d, i);
        let all = p.push(r.last());
        assert forall|x: int| #[trigger] all.contains(x) <==> r.contains(x) || x == i by {
            lemma_int_joins(r, x);
            assert(all.drop_last() =~= p);
            lemma_int_joins(all, x);
            assert(p.contains(x) <==> d.contains(x) || x == i);
        }
        assert forall|a: int, b: int| 0 <= a < b < all.len() implies worth(
            scores[#[trigger] all[a]],
        ) >= worth(scores[#[trigger] all[b]]) by {
            if b < p.len() {
                assert(all[a] == p[a] && all[b] == p[b]);
            } else {
                assert(p.contains(p[a]));
                if p[a] != i {
                    assert(d.contains(p[a]));
                    let k = choose|k: int| 0 <= k < d.len() && d[k] == p[a];
                    assert(r[k] == p[a] && r[r.len() - 1] == r.last());
                }
            }
        }
    } else {
        let all = r.push(i);
        assert forall|x: int| #[trigger] all.contains(x) <==> r.contains(x) || x == i by {
            assert(all.drop_last() =~= r);
            lemma_int_joins(all, x);
        }
        assert forall|a: int, b: int| 0 <= a < b < all.len() implies worth(
            scores[#[trigger] all[a]],
        ) >= worth(scores[#[trigger] all[b]]) by {
            if b < r.len() {
                assert(all[a] == r[a] && all[b] == r[b]);
            } else if a < r.len() - 1 {
                assert(worth(scores[r[a]]) >= worth(scores[r[r.len() - 1]]));
            }
        }
    }
}

proof fn lemma_int_joins(s: Seq<int>, x: int)
    requires
        s.len() > 0,
    ensures
        s.contains(x) == (s.drop_last().contains(x) || s.last() == x),
{
    let d = s.drop_last();
    if d.contains(x) {
        let k = choose|k: int| 0 <= k < d.len() && d[k] == x;
        assert(s[k] == x);
    }
    assert(s[s.len() - 1] == s.last());
    if s.contains(x) && x != s.last() {
        let k = choose|k: int| 0 <= k < s.len() && s[k] == x;
        assert(d[k] == x);
    }
}

/// A ranking is the best first, and holds exactly the scores that count.
pub proof fn law_the_best_come_first(scores: Seq<(nat, nat)>, n: int)
    requires
        0 <= n <= scores.len(),
    ensures
        best_first(scores, ranking(scores, n)),
        forall|x: int| #[trigger]
            ranking(scores, n).contains(x) <==> 0 <= x < n && counts(scores, x),
    decreases n,
{
    if n > 0 {
        law_the_best_come_first(scores, n - 1);
        let r = ranking(scores, n - 1);
        if counts(scores, n - 1) {
            lemma_ranked_in(scores, r, n - 1);
            assert forall|x: int| #[trigger] ranking(scores, n).contains(x) <==> 0 <= x < n
                && counts(scores, x) by {
                assert(r.contains(x) <==> 0 <= x < n - 1 && counts(scores, x));
            }
        } else {
            assert forall|x: int| #[trigger] ranking(scores, n).contains(x) <==> 0 <= x < n
                && counts(scores, x) by {
                assert(r.contains(x) <==> 0 <= x < n - 1 && counts(scores, x));
            }
        }
    }
}

/// A common word of the bodies drags no rule in: where some rule has a hit among its
/// curated words, only rules that have one are ranked.
pub proof fn law_curated_hits_silence_bodies(scores: Seq<(nat, nat)>, k: int)
    requires
        any_curated(scores),
        0 <= k < ranking(scores, scores.len() as int).len(),
    ensures
        0 <= ranking(scores, scores.len() as int)[k] < scores.len(),
        scores[ranking(scores, scores.len() as int)[k]].0 > 0,
{
    law_the_best_come_first(scores, scores.len() as int);
    let r = ranking(scores, scores.len() as int);
    assert(r.contains(r[k]));
}

/// A topic whose words hit nothing finds nothing, rather than everything.
pub proof fn law_misses_find_nothing(rs: Seq<RuleView>, topic: Seq<char>)
    requires
        forall|i: int|
            0 <= i < rs.len() ==> score_of(terms_of(topic), surface_of(#[trigger] rs[i])) == (
                0nat,
                0nat,
            ),
    ensures
        rules_on(rs, topic).len() == 0,
{
    let terms = terms_of(topic);
    let scores = scores_of(terms, surfaces_of(rs));
    law_the_best_come_first(scores, rs.len() as int);
    let r = ranking(scores, rs.len() as int);
    if r.len() > 0 {
        assert(r.contains(r[0]));
        let x = r[0];
        assert(scores[x] == score_of(terms, surface_of(rs[x])));
        if any_curated(scores) {
            let i = choose|i: int| 0 <= i < scores.len() && (#[trigger] scores[i]).0 > 0;
            assert(scores[i] == score_of(terms, surface_of(rs[i])));
        }
    }
}

// ---- every rule by its own ------------------------------------------------------------------

/// A number that tells the slugs apart: the length and some of the letters.
spec fn mark(s: Seq<char>) -> int {
    ((s.len() as int) * 1000 + s[0] as u32 as int) * 1000 + s[s.len() - 2] as u32 as int
}

/// The place of the rule whose slug has this mark.
spec fn marked(m: int) -> int {
    if m == 18115115 {
        0
    } else if m == 18110111 {
        1
    } else if m == 8097100 {
        2
    } else if m == 6103112 {
        3
    } else if m == 8111110 {
        4
    } else if m == 10099114 {
        5
    } else if m == 10099116 {
        6
    } else if m == 7115108 {
        7
    } else if m == 9101108 {
        8
    } else if m == 20109107 {
        9
    } else if m == 15115114 {
        10
    } else if m == 10116103 {
        11
    } else if m == 13118108 {
        12
    } else if m == 8115110 {
        13
    } else if m == 16108101 {
        14
    } else if m == 6110110 {
        15
    } else if m == 15098114 {
        16
    } else if m == 19097115 {
        17
    } else if m == 8099110 {
        18
    } else if m == 14115114 {
        19
    } else if m == 15116110 {
        20
    } else if m == 11108110 {
        21
    } else if m == 9108097 {
        22
    } else if m == 13108102 {
        23
    } else if m == 10108108 {
        24
    } else if m == 10108115 {
        25
    } else if m == 15112116 {
        26
    } else if m == 11100115 {
        27
    } else if m == 18100110 {
        28
    } else if m == 16117110 {
        29
    } else if m == 20099099 {
        30
    } else if m == 12109114 {
        31
    } else if m == 18102116 {
        32
    } else if m == 19102102 {
        33
    } else if m == 14102114 {
        34
    } else if m == 16102104 {
        35
    } else if m == 14104110 {
        36
    } else if m == 20099101 {
        37
    } else if m == 16100110 {
        38
    } else if m == 12100110 {
        39
    } else if m == 16100101 {
        40
    } else if m == 17100101 {
        41
    } else if m == 13099101 {
        42
    } else if m == 8115102 {
        43
    } else if m == 13116116 {
        44
    } else if m == 10115097 {
        45
    } else if m == 15103108 {
        46
    } else if m == 10112111 {
        47
    } else if m == 13111101 {
        48
    } else if m == 17100116 {
        49
    } else {
        -1
    }
}

proof fn lemma_marks_a()
    ensures
        forall|i: int|
            0 <= i < 10 ==> {
                &&& marked(mark((#[trigger] RULES@[i]).1@)) == i
                &&& RULES@[i].0 as int == if i < 12 {
                    i + 1
                } else {
                    i + 2
                }
                &&& RULES@[i].1@.len() > 0
                &&& 'a' <= RULES@[i].1@[0] <= 'z'
            },
{
    reveal_strlit("statement-business");
    reveal_strlit("node-justification");
    reveal_strlit("altitude");
    reveal_strlit("groups");
    reveal_strlit("one-link");
    reveal_strlit("containers");
    reveal_strlit("components");
    reveal_strlit("symbols");
    reveal_strlit("externals");
    reveal_strlit("mentions-imply-links");
    assert(RULES@[0].1 == "statement-business");
    assert(mark("statement-business"@) == 18115115);
    assert(RULES@[1].1 == "node-justification");
    assert(mark("node-justification"@) == 18110111);
    assert(RULES@[2].1 == "altitude");
    assert(mark("altitude"@) == 8097100);
    assert(RULES@[3].1 == "groups");
    assert(mark("groups"@) == 6103112);
    assert(RULES@[4].1 == "one-link");
    assert(mark("one-link"@) == 8111110);
    assert(RULES@[5].1 == "containers");
    assert(mark("containers"@) == 10099114);
    assert(RULES@[6].1 == "components");
    assert(mark("components"@) == 10099116);
    assert(RULES@[7].1 == "symbols");
    assert(mark("symbols"@) == 7115108);
    assert(RULES@[8].1 == "externals");
    assert(mark("externals"@) == 9101108);
    assert(RULES@[9].1 == "mentions-imply-links");
    assert(mark("mentions-imply-links"@) == 20109107);
}

proof fn lemma_marks_b()
    ensures
        forall|i: int|
            10 <= i < 20 ==> {
                &&& marked(mark((#[trigger] RULES@[i]).1@)) == i
                &&& RULES@[i].0 as int == if i < 12 {
                    i + 1
                } else {
                    i + 2
                }
                &&& RULES@[i].1@.len() > 0
                &&& 'a' <= RULES@[i].1@[0] <= 'z'
            },
{
    reveal_strlit("system-boundary");
    reveal_strlit("technology");
    reveal_strlit("vagrant-stale");
    reveal_strlit("scanning");
    reveal_strlit("links-same-level");
    reveal_strlit("naming");
    reveal_strlit("build-in-layers");
    reveal_strlit("anchor-completeness");
    reveal_strlit("concerns");
    reveal_strlit("statement-ears");
    assert(RULES@[10].1 == "system-boundary");
    assert(mark("system-boundary"@) == 15115114);
    assert(RULES@[11].1 == "technology");
    assert(mark("technology"@) == 10116103);
    assert(RULES@[12].1 == "vagrant-stale");
    assert(mark("vagrant-stale"@) == 13118108);
    assert(RULES@[13].1 == "scanning");
    assert(mark("scanning"@) == 8115110);
    assert(RULES@[14].1 == "links-same-level");
    assert(mark("links-same-level"@) == 16108101);
    assert(RULES@[15].1 == "naming");
    assert(mark("naming"@) == 6110110);
    assert(RULES@[16].1 == "build-in-layers");
    assert(mark("build-in-layers"@) == 15098114);
    assert(RULES@[17].1 == "anchor-completeness");
    assert(mark("anchor-completeness"@) == 19097115);
    assert(RULES@[18].1 == "concerns");
    assert(mark("concerns"@) == 8099110);
    assert(RULES@[19].1 == "statement-ears");
    assert(mark("statement-ears"@) == 14115114);
}

proof fn lemma_marks_c()
    ensures
        forall|i: int|
            20 <= i < 30 ==> {
                &&& marked(mark((#[trigger] RULES@[i]).1@)) == i
                &&& RULES@[i].0 as int == if i < 12 {
                    i + 1
                } else {
                    i + 2
                }
                &&& RULES@[i].1@.len() > 0
                &&& 'a' <= RULES@[i].1@[0] <= 'z'
            },
{
    reveal_strlit("test-attachment");
    reveal_strlit("loop-orient");
    reveal_strlit("loop-plan");
    reveal_strlit("loop-sign-off");
    reveal_strlit("loop-build");
    reveal_strlit("loop-close");
    reveal_strlit("proportionality");
    reveal_strlit("drift-first");
    reveal_strlit("directives-binding");
    reveal_strlit("user-owns-intent");
    assert(RULES@[20].1 == "test-attachment");
    assert(mark("test-attachment"@) == 15116110);
    assert(RULES@[21].1 == "loop-orient");
    assert(mark("loop-orient"@) == 11108110);
    assert(RULES@[22].1 == "loop-plan");
    assert(mark("loop-plan"@) == 9108097);
    assert(RULES@[23].1 == "loop-sign-off");
    assert(mark("loop-sign-off"@) == 13108102);
    assert(RULES@[24].1 == "loop-build");
    assert(mark("loop-build"@) == 10108108);
    assert(RULES@[25].1 == "loop-close");
    assert(mark("loop-close"@) == 10108115);
    assert(RULES@[26].1 == "proportionality");
    assert(mark("proportionality"@) == 15112116);
    assert(RULES@[27].1 == "drift-first");
    assert(mark("drift-first"@) == 11100115);
    assert(RULES@[28].1 == "directives-binding");
    assert(mark("directives-binding"@) == 18100110);
    assert(RULES@[29].1 == "user-owns-intent");
    assert(mark("user-owns-intent"@) == 16117110);
}

proof fn lemma_marks_d()
    ensures
        forall|i: int|
            30 <= i < 40 ==> {
                &&& marked(mark((#[trigger] RULES@[i]).1@)) == i
                &&& RULES@[i].0 as int == if i < 12 {
                    i + 1
                } else {
                    i + 2
                }
                &&& RULES@[i].1@.len() > 0
                &&& 'a' <= RULES@[i].1@[0] <= 'z'
            },
{
    reveal_strlit("codebase-as-evidence");
    reveal_strlit("model-layers");
    reveal_strlit("fold-evidence-gate");
    reveal_strlit("fold-after-sign-off");
    reveal_strlit("fold-in-layers");
    reveal_strlit("fold-post-flight");
    reveal_strlit("health-reading");
    reveal_strlit("completeness-layered");
    reveal_strlit("drift-directions");
    reveal_strlit("drift-homing");
    assert(RULES@[30].1 == "codebase-as-evidence");
    assert(mark("codebase-as-evidence"@) == 20099099);
    assert(RULES@[31].1 == "model-layers");
    assert(mark("model-layers"@) == 12109114);
    assert(RULES@[32].1 == "fold-evidence-gate");
    assert(mark("fold-evidence-gate"@) == 18102116);
    assert(RULES@[33].1 == "fold-after-sign-off");
    assert(mark("fold-after-sign-off"@) == 19102102);
    assert(RULES@[34].1 == "fold-in-layers");
    assert(mark("fold-in-layers"@) == 14102114);
    assert(RULES@[35].1 == "fold-post-flight");
    assert(mark("fold-post-flight"@) == 16102104);
    assert(RULES@[36].1 == "health-reading");
    assert(mark("health-reading"@) == 14104110);
    assert(RULES@[37].1 == "completeness-layered");
    assert(mark("completeness-layered"@) == 20099101);
    assert(RULES@[38].1 == "drift-directions");
    assert(mark("drift-directions"@) == 16100110);
    assert(RULES@[39].1 == "drift-homing");
    assert(mark("drift-homing"@) == 12100110);
}

proof fn lemma_marks_e()
    ensures
        forall|i: int|
            40 <= i < 50 ==> {
                &&& marked(mark((#[trigger] RULES@[i]).1@)) == i
                &&& RULES@[i].0 as int == if i < 12 {
                    i + 1
                } else {
                    i + 2
                }
                &&& RULES@[i].1@.len() > 0
                &&& 'a' <= RULES@[i].1@[0] <= 'z'
            },
{
    reveal_strlit("drift-properties");
    reveal_strlit("drift-stale-nodes");
    reveal_strlit("change-ledger");
    reveal_strlit("sign-off");
    reveal_strlit("test-verdicts");
    reveal_strlit("source-map");
    reveal_strlit("generation-fill");
    reveal_strlit("probe-loop");
    reveal_strlit("orient-phases");
    reveal_strlit("descope-vs-delete");
    assert(RULES@[40].1 == "drift-properties");
    assert(mark("drift-properties"@) == 16100101);
    assert(RULES@[41].1 == "drift-stale-nodes");
    assert(mark("drift-stale-nodes"@) == 17100101);
    assert(RULES@[42].1 == "change-ledger");
    assert(mark("change-ledger"@) == 13099101);
    assert(RULES@[43].1 == "sign-off");
    assert(mark("sign-off"@) == 8115102);
    assert(RULES@[44].1 == "test-verdicts");
    assert(mark("test-verdicts"@) == 13116116);
    assert(RULES@[45].1 == "source-map");
    assert(mark("source-map"@) == 10115097);
    assert(RULES@[46].1 == "generation-fill");
    assert(mark("generation-fill"@) == 15103108);
    assert(RULES@[47].1 == "probe-loop");
    assert(mark("probe-loop"@) == 10112111);
    assert(RULES@[48].1 == "orient-phases");
    assert(mark("orient-phases"@) == 13111101);
    assert(RULES@[49].1 == "descope-vs-delete");
    assert(mark("descope-vs-delete"@) == 17100116);
}

/// No two rules share a slug or a number, and no slug is a number.
pub proof fn law_rules_are_told_apart(i: int, j: int)
    requires
        0 <= i < rule_list().len(),
        0 <= j < rule_list().len(),
        i != j,
    ensures
        rule_list()[i].slug != rule_list()[j].slug,
        rule_list()[i].id != rule_list()[j].id,
        small_number(rule_list()[i].slug) is None,
{
    lemma_marks_a();
    lemma_marks_b();
    lemma_marks_c();
    lemma_marks_d();
    lemma_marks_e();
    assert(marked(mark(RULES@[i].1@)) == i);
    assert(marked(mark(RULES@[j].1@)) == j);
    lemma_no_number(rule_list()[i].slug);
}

proof fn lemma_no_number(s: Seq<char>)
    requires
        s.len() > 0,
        'a' <= s[0] <= 'z',
    ensures
        small_number(s) is None,
{
    assert(unsigned(s) == s);
    if all_digits(s) {
        assert(s[0] <= '9');
    }
}

proof fn lemma_by_slug(rs: Seq<RuleView>, i: int)
    requires
        0 <= i < rs.len(),
        forall|j: int| 0 <= j < i ==> (#[trigger] rs[j]).slug != rs[i].slug,
    ensures
        by_slug(rs, rs[i].slug) == Some(rs[i]),
    decreases rs.len(),
{
    if i > 0 {
        assert(rs[0].slug != rs[i].slug);
        let t = rs.drop_first();
        assert forall|j: int| 0 <= j < i - 1 implies (#[trigger] t[j]).slug != t[i - 1].slug by {
            assert(rs[j + 1].slug != rs[i].slug);
        }
        lemma_by_slug(t, i - 1);
    }
}

proof fn lemma_by_number(rs: Seq<RuleView>, i: int)
    requires
        0 <= i < rs.len(),
        forall|j: int| 0 <= j < i ==> (#[trigger] rs[j]).id != rs[i].id,
    ensures
        by_number(rs, rs[i].id as nat) == Some(rs[i]),
    decreases rs.len(),
{
    if i > 0 {
        assert(rs[0].id != rs[i].id);
        let t = rs.drop_first();
        assert forall|j: int| 0 <= j < i - 1 implies (#[trigger] t[j]).id != t[i - 1].id by {
            assert(rs[j + 1].id != rs[i].id);
        }
        lemma_by_number(t, i - 1);
    }
}

/// Does a rule go by the key: by its slug, or by its number, with or without white space
/// around them?
pub open spec fn goes_by(r: RuleView, key: Seq<char>) -> bool {
    trimmed(key) == r.slug || small_number(trimmed(key)) == Some(r.id as nat)
}

/// A number is read back as it is written.
pub proof fn law_rules_go_by_their_numbers(i: int, key: Seq<char>)
    requires
        0 <= i < rule_list().len(),
        trimmed(key) == decimal(rule_list()[i].id as nat),
    ensures
        goes_by(rule_list()[i], key),
{
    lemma_decimal_reads(rule_list()[i].id as nat);
}

/// Every rule is found by whatever it goes by: its own slug and its own number, with or
/// without white space around them.
pub proof fn law_every_rule_is_found_by_its_own(i: int, key: Seq<char>)
    requires
        0 <= i < rule_list().len(),
        goes_by(rule_list()[i], key),
    ensures
        rule_named(rule_list(), key) == Some(rule_list()[i]),
{
    let rs = rule_list();
    assert forall|j: int| 0 <= j < i implies (#[trigger] rs[j]).slug != rs[i].slug && rs[j].id
        != rs[i].id by {
        law_rules_are_told_apart(i, j);
    }
    lemma_by_slug(rs, i);
    lemma_by_number(rs, i);
    if trimmed(key) == rs[i].slug {
        let j: int = if i == 0 {
            1
        } else {
            0
        };
        assert(rs.len() == 50);
        law_rules_are_told_apart(i, j);
    }
}

/// Nothing is found exactly where no rule goes by the key.
pub proof fn law_an_unknown_key_finds_nothing(key: Seq<char>)
    ensures
        rule_named(rule_list(), key) is None <==> forall|i: int|
            0 <= i < rule_list().len() ==> !goes_by(#[trigger] rule_list()[i], key),
{
    if rule_named(rule_list(), key) is Some {
        let i = law_found_rules_go_by_the_key(key);
        assert(goes_by(rule_list()[i], key));
    } else {
        assert forall|i: int| 0 <= i < rule_list().len() implies !goes_by(
            #[trigger] rule_list()[i],
            key,
        ) by {
            if goes_by(rule_list()[i], key) {
                law_every_rule_is_found_by_its_own(i, key);
            }
        }
    }
}

proof fn lemma_decimal_reads(n: nat)
    ensures
        all_digits(decimal(n)),
        digits_value(decimal(n)) == n,
        decimal(n)[0] != '+',
        n <= 255 ==> small_number(decimal(n)) == Some(n),
    decreases n,
{
    if n >= 10 {
        lemma_decimal_reads(n / 10);
        let d = decimal(n / 10);
        let s = decimal(n);
        assert(s.drop_last() =~= d);
        assert forall|k: int| 0 <= k < s.len() implies '0' <= #[trigger] s[k] && s[k] <= '9' by {
            if k < d.len() {
                assert(s[k] == d[k]);
            }
        }
        assert(s[0] == d[0]);
    } else {
        let s = decimal(n);
        assert(s.drop_last() =~= Seq::<char>::empty());
        assert(digits_value(Seq::<char>::empty()) == 0);
    }
}

/// What is found is a rule, and goes by the key: the key is its slug, or its number.
pub proof fn law_found_rules_go_by_the_key(key: Seq<char>) -> (i: int)
    requires
        rule_named(rule_list(), key) is Some,
    ensures
        0 <= i < rule_list().len(),
        rule_named(rule_list(), key) == Some(rule_list()[i]),
        goes_by(rule_list()[i], key),
{
    match small_number(trimmed(key)) {
        Some(n) => lemma_number_found(rule_list(), n),
        None => lemma_slug_found(rule_list(), trimmed(key)),
    }
}

proof fn lemma_number_found(rs: Seq<RuleView>, n: nat) -> (i: int)
    requires
        by_number(rs, n) is Some,
    ensures
        0 <= i < rs.len(),
        by_number(rs, n) == Some(rs[i]),
        rs[i].id as nat == n,
    decreases rs.len(),
{
    if rs[0].id as nat == n {
        0
    } else {
        lemma_number_found(rs.drop_first(), n) + 1
    }
}

proof fn lemma_slug_found(rs: Seq<RuleView>, slug: Seq<char>) -> (i: int)
    requires
        by_slug(rs, slug) is Some,
    ensures
        0 <= i < rs.len(),
        by_slug(rs, slug) == Some(rs[i]),
        rs[i].slug == slug,
    decreases rs.len(),
{
    if rs[0].slug == slug {
        0
    } else {
        lemma_slug_found(rs.drop_first(), slug) + 1
    }
}

/// Numbers are told apart by how they are written.
pub proof fn lemma_decimals_apart(a: nat, b: nat)
    ensures
        decimal(a) == decimal(b) <==> a == b,
{
    lemma_decimal_reads(a);
    lemma_decimal_reads(b);
}

} // verus!
