# metrics_exporters

The formats and decisions of a family of metrics exporters, written in Verus and proved
against their contracts.

## Library (`src/`)

- `labels`: metric keys and labels; the ordered label map they are merged into.
- `formatting`: Prometheus names, label keys and values, escaping, exposition lines, keys
  broken into name and rendered labels, metric name matchers.
- `exposition`, `snapshot`, `distribution`: a snapshot gathered into families by name and label
  set (samples of idle metrics forgotten), and rendered in the Prometheus text exposition
  format; overrides ordered by their matchers; which kind of distribution a metric gets.
- `render`: label pairs; native histogram buckets: recording an observation in its bucket,
  limiting their number by halving their resolution, and their span and delta encoding, with
  its decoding.
- `rolling`: the time buckets of a rolling summary.
- `http_listener`, `push_gateway`: who may scrape (the address allow-list), what a request is
  answered, the response format chosen from an `Accept` header, and the basic authentication
  header.
- `remote_write`: remote-write time series, their labels ordered by name and samples by time
  (a stable sort).
- `observer`: observed counters, gauges and histograms in the exposition format, with bucket
  overrides chosen by the longest matching name suffix.
- `dogstatsd`: client-side aggregated counters, payloads of newline-delimited metrics within a
  maximum length, flushing with idle-counter tracking, telemetry counts, the remote address and
  the client's connection states.
- `tcp`: the intake of encoded metrics on each wake-up, bounded by the buffer size, and the
  per-client write queue of the TCP exporter.
- `recorder`, `facade`, `log_exporter`: a recorder that can be set once, the no-op recorder in
  its place until then, and an exporter that drains observed metrics as text.

## Runtime (`app/`)

Sockets, threads, clocks, process-wide recorders, floating-point values and the traits of the
`metrics` crates, around the library.
