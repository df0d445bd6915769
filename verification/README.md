# k6_analytics

Verified rules of a GTFS feed validator's analytics stage: the decisions
behind its timing, headway, calendar, pathway, network, data-quality and
trip-grouping findings, written in Verus with contracts that state each
rule over mathematical models (sequences of stop times, date lists, graphs,
group memberships).

Layout:

- `src/` — the library, verified by Verus; only the small wrappers around
  std's text, character and sorting functions (in `text.rs`, `clock.rs` and
  `headway.rs`) are trusted rather than proved:
  - `text.rs`, `headsign.rs`, `quality.rs` — name and URL rules (whole-word
    matching, letter case, trimming, headsigns, generic stop names, feed-level
    data quality);
  - `clock.rs`, `schedule.rs` — times of day, stop-time sequences, trip
    durations, overlapping block trips;
  - `headway.rs` — departure gaps, regularity, bunching, frequencies, the
    median baselines of headways and of trip durations;
  - `calendar.rs`, `conflicts.rs` — Julian days, service periods and gaps,
    feed validity, days on which several services of a route run;
  - `route_type.rs`, `network.rs`, `trips.rs`, `similarity.rs` — vehicle
    classes and speed limits, network thresholds, grouping of trips by block,
    route and direction, near-duplicate routes;
  - `pathways.rs` — station reachability over the pathway graph;
  - `components.rs`, `hubs.rs` — the stop network and its connected
    components, the distinct routes at each stop, weekday and weekend trips
    per route;
  - `stops.rs` — stop and agency records that nothing refers to (unused
    physical stops, stations without platforms, agencies no route names);
  - `grouping.rs` — findings shared by several services reported once per
    key (gap, expiry date);
  - `fields.rs` — missing or blank recommended fields, URLs that repeat an
    agency's or route's URL, trips without shape distances, headsigns in a
    single letter case;
  - `findings.rs`, `analysis.rs`, `feed.rs` — findings of the record rules
    in the order the rules run; notices numbered `k6/{rule}#{n}` in the
    checks' fixed order; `analyze`, which runs the checks whose inputs the
    library reads from a `Feed` (STM_049, DQ_003/004, DQ_010, TRP_033,
    STP_020/030, OPR_021/022/023);
  - `report.rs` — text order, joining and the summaries of findings.
- `tests/` — tests of the library on concrete values: indices, times, dates
  and records written out by hand for small examples.
- `app/` — floating-point geometry (distances, projections onto shapes,
  speeds), the floating-point verdicts of the headway and duration outlier
  rules, and the mapping of identifiers to the indices the library uses.

Identifiers (stops, routes, blocks, services, zones) reach the library as
dense indices `0..n`; dates as `YYYYMMDD` integers; times as
`(hours, minutes, seconds)` or seconds.
