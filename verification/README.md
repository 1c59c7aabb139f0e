# abada

The request and error logic of a REST/JSON gateway for gRPC services, as Go's
grpc-gateway has it, written in Verus: each function states what it returns
in `requires`/`ensures`, and Verus proves it.

## Layout

- `src/path/`: URL path templates (`google.api.http` syntax), their compiled
  patterns, and the router that matches a request path to a binding.
- `src/request/`: the request side: Go's `strconv`, `net/url` query and
  `mime` parsing, `time.Parse`/`time.ParseDuration`, `encoding/json`'s first
  value, the binding of an HTTP rule to its RPC, field paths and field masks,
  the converters of path and query values, and the request message built from
  them (`populate`, `path_params`).
- `src/json/`: protojson's encoding of the well-known types with a JSON form
  of their own (`Timestamp`, `Duration`, the wrappers, `FieldMask`,
  `Empty`), the protojson tokenizer, `encoding/json`'s scanner for a
  request body (ten thousand levels deep, without recursion), Go's text and
  base64 encoders, JSON names, and the protobuf wire format reader.
- `src/error.rs`: gRPC status codes as HTTP statuses and error bodies.
- `src/service/`: what the gateway decides for a request before decoding it
  (the target, `ServeMux`'s dispatch, the error answered at once), and gRPC
  metadata from HTTP headers, timeouts.
- `src/codegen/`: the HTTP bindings a descriptor set declares, for the code
  generator.
- `app/`: what stays outside the proofs: prost and prost-reflect descriptors,
  `http` headers, and Go's floating-point routines (`strconv.ParseFloat`,
  float formatting, a duration component's fraction).
- `tests/`: the tests, run against the compiled library.

Not here: the rest of the protojson codec (decoding a request body into a
message, encoding a whole response message, `Struct`, `Value`, `ListValue`
and `Any`, the `Any` type registry), the protobuf wire encoder and
decoder over messages, and the async gateway service around tonic. The
request message is built from the path and the query (`populate`,
`path_params`, `RequestBinding::decode_after_body`) after a body step the
caller supplies.
